//! Calls into `rand` for the engine's random choices.
use rand::seq::IteratorRandom;
use rand::Rng;
use vstd::prelude::*;

verus! {

/// Relies on `rand::Rng::gen_range` over an inclusive range of the thread
/// generator: the value lies in `lo..=hi`; the range is not empty.
#[verifier::external_body]
pub(crate) fn random_in(lo: i64, hi: i64) -> (r: i64)
    requires
        lo <= hi,
    ensures
        lo <= r <= hi,
{
    rand::thread_rng().gen_range(lo..=hi)
}

/// Relies on `rand::seq::IteratorRandom::choose` over the characters of
/// `palette`: it returns one of them, and `None` only for an empty iterator.
#[verifier::external_body]
pub(crate) fn choose_char(palette: &str) -> (r: char)
    requires
        palette@.len() > 0,
    ensures
        palette@.contains(r),
{
    palette.chars().choose(&mut rand::thread_rng()).unwrap()
}

/// Relies on `rand::seq::IteratorRandom::choose_multiple` over `0..len`:
/// `min(amount, len)` of the indices, each taken at most once.
#[verifier::external_body]
pub(crate) fn sample_indices(len: usize, amount: usize) -> (r: Vec<usize>)
    ensures
        r@.len() == if amount < len { amount } else { len },
        r@.no_duplicates(),
        forall|i: int| 0 <= i < r@.len() ==> r@[i] < len,
{
    (0..len).choose_multiple(&mut rand::thread_rng(), amount)
}

} // verus!
