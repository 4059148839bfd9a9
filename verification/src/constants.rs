//! Sizes of the encodings, and the group order as bytes.
#![allow(unused_imports)]

use vstd::prelude::*;

verus! {

/// Length of a message digest and of a scalar encoding.
pub const DIGEST_LEN: usize = 32;

/// Length of a compressed SEC1 public key.
pub const COMPRESSED_SEC1_PUBLIC_KEY_LEN: usize = 33;

/// Length of an uncompressed SEC1 public key.
pub const UNCOMPRESSED_SEC1_PUBLIC_KEY_LEN: usize = 65;

/// The group order `n`, big-endian.
pub const ORDER_BYTES: [u8; 32] = [
    0xff, 0xff, 0xff, 0xff, 0x00, 0x00, 0x00, 0x00, 0xff, 0xff, 0xff, 0xff, 0xff, 0xff, 0xff, 0xff,
    0xbc, 0xe6, 0xfa, 0xad, 0xa7, 0x17, 0x9e, 0x84, 0xf3, 0xb9, 0xca, 0xc2, 0xfc, 0x63, 0x25, 0x51,
];

} // verus!
