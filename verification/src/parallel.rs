//! The sorting and the data parallelism that std and rayon supply.
//!
//! Every function here is believed rather than proved: its contract states what the function it
//! calls is documented to do.
use crate::arith::{by_gain, ranks_before};
use crate::term_work::{doc_and_place, places_in_order};
use rayon::iter::{
    IndexedParallelIterator, IntoParallelIterator, IntoParallelRefIterator, ParallelIterator,
};
use rayon::slice::ParallelSliceMut;
use vstd::prelude::*;
use vstd::relations::sorted_by;
use vstd::utf8::{encode_utf8, valid_utf8};

verus! {

/// `rayon::join` calls both closures, once each, and returns their two results in the order of
/// the closures.
pub assume_specification<A, B, RA, RB>[ rayon::join::<A, B, RA, RB> ](
    oper_a: A,
    oper_b: B,
) -> (r: (RA, RB)) where A: FnOnce() -> RA + Send, B: FnOnce() -> RB + Send, RA: Send, RB: Send
    requires
        oper_a.requires(()),
        oper_b.requires(()),
    ensures
        oper_a.ensures((), r.0),
        oper_b.ensures((), r.1),
;

/// `par_iter`, `enumerate`, `map` and `collect` of rayon's indexed parallel iterators: `f` is
/// called on every item together with its index, and the results are collected in the order of
/// the items.
#[verifier::external_body]
pub(crate) fn par_map_indexed<T: Sync, R: Send, F: Fn(usize, &T) -> R + Sync + Send>(
    items: &[T],
    f: F,
) -> (out: Vec<R>)
    requires
        forall|i: int| 0 <= i < items@.len() ==> #[trigger] f.requires((i as usize, &items@[i])),
    ensures
        out@.len() == items@.len(),
        forall|i: int|
            0 <= i < items@.len() ==> f.ensures((i as usize, &items@[i]), #[trigger] out@[i]),
{
    items.par_iter().enumerate().map(|(i, item)| f(i, item)).collect()
}

/// `<[T]>::sort_by` with [`by_gain`]: the same pairs, sorted.
#[verifier::external_body]
pub(crate) fn sort_pairs(pairs: &mut Vec<(u32, u32)>)
    ensures
        final(pairs)@.to_multiset() == old(pairs)@.to_multiset(),
        sorted_by(final(pairs)@, |a: (u32, u32), b: (u32, u32)| ranks_before(a, b)),
{
    pairs.sort_by(by_gain)
}

/// `ParallelSliceMut::par_sort_by` of rayon with [`by_gain`]: the same pairs, sorted.
#[verifier::external_body]
pub(crate) fn par_sort_pairs(pairs: &mut Vec<(u32, u32)>)
    ensures
        final(pairs)@.to_multiset() == old(pairs)@.to_multiset(),
        sorted_by(final(pairs)@, |a: (u32, u32), b: (u32, u32)| ranks_before(a, b)),
{
    pairs.par_sort_by(by_gain)
}

/// `<[T]>::sort_unstable_by_key` by [`doc_and_place`]: the same indices, by ascending document of
/// the posting that each names, and those of one document by ascending index.
#[verifier::external_body]
pub(crate) fn sort_by_doc(order: &mut Vec<usize>, postings: &Vec<(u32, u32)>)
    requires
        forall|k: int| 0 <= k < old(order)@.len() ==> #[trigger] old(order)@[k] < postings@.len(),
    ensures
        final(order)@.to_multiset() == old(order)@.to_multiset(),
        forall|j: int, k: int|
            0 <= j < k < final(order)@.len() ==> places_in_order(
                postings@,
                #[trigger] final(order)@[j],
                #[trigger] final(order)@[k],
            ),
{
    order.sort_unstable_by_key(|&k| doc_and_place(postings, k))
}

/// `into_par_iter`, `map` and `collect` of rayon's indexed parallel iterators: `f` is called on
/// every item, which is handed over to it, and the results are collected in the order of the items.
#[verifier::external_body]
pub(crate) fn par_map_owned<A: Send, B: Send, F: Fn(A) -> B + Sync + Send>(
    items: Vec<A>,
    f: F,
) -> (out: Vec<B>)
    requires
        forall|i: int| 0 <= i < items@.len() ==> #[trigger] f.requires((items@[i],)),
    ensures
        out@.len() == items@.len(),
        forall|i: int| 0 <= i < items@.len() ==> f.ensures((items@[i],), #[trigger] out@[i]),
{
    items.into_par_iter().map(|item| f(item)).collect()
}

/// `rayon::current_num_threads`: how many threads there are to run on. It is up to the machine and
/// to the pool that the caller runs in, so nothing is said of it.
pub assume_specification[ rayon::current_num_threads ]() -> usize
;

/// `std::str::from_utf8`: the text that the bytes encode, where they are UTF-8.
#[verifier::external_body]
pub(crate) fn text_of(bytes: &[u8]) -> (text: Option<&str>)
    ensures
        text is Some <==> valid_utf8(bytes@),
        text matches Some(t) ==> encode_utf8(t@) == bytes@,
{
    std::str::from_utf8(bytes).ok()
}

} // verus!
