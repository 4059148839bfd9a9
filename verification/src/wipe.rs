//! Clearing of secret material through `zeroize`, whose writes the compiler
//! does not remove.
#![allow(unused_imports)]

use vstd::prelude::*;
use zeroize::Zeroize;

verus! {

/// Calls `<[u8; N] as zeroize::Zeroize>::zeroize`, which writes zero to every byte.
#[verifier::external_body]
pub(crate) fn wipe_bytes<const N: usize>(bytes: &mut [u8; N])
    ensures
        forall|i: int| 0 <= i < N ==> #[trigger] final(bytes)[i] == 0u8,
{
    bytes.zeroize();
}

/// Calls `<[u64; N] as zeroize::Zeroize>::zeroize`, which writes zero to every word.
#[verifier::external_body]
pub(crate) fn wipe_words<const N: usize>(words: &mut [u64; N])
    ensures
        forall|i: int| 0 <= i < N ==> #[trigger] final(words)[i] == 0u64,
    no_unwind
{
    words.zeroize();
}

/// Calls `<[i8; N] as zeroize::Zeroize>::zeroize`, which writes zero to every digit.
#[verifier::external_body]
pub(crate) fn wipe_digits<const N: usize>(digits: &mut [i8; N])
    ensures
        forall|i: int| 0 <= i < N ==> #[trigger] final(digits)[i] == 0i8,
{
    digits.zeroize();
}

} // verus!
