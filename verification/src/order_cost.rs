//! What an order costs, up to the arithmetic: how often each window of it holds each term.
use crate::bisection::{degree, occurrences};
use crate::degrees::{lemma_degree_concat, lemma_degree_witness, lemma_occurrences_prefix};
use crate::forward_index::ForwardIndex;
use vstd::prelude::*;

verus! {

/// The terms of one window of an order.
#[derive(Debug)]
pub struct WindowTally {
    /// How many documents the window holds.
    pub size: usize,
    /// Each term that they carry, and how often.
    pub degrees: Vec<(u32, u32)>,
}

/// `items` cut into runs of `size`, the last of them shorter where they do not come out even.
pub open spec fn chunks<T>(items: Seq<T>, size: int) -> Seq<Seq<T>>
    decreases items.len(),
{
    if items.len() == 0 || size <= 0 {
        Seq::empty()
    } else if items.len() <= size {
        seq![items]
    } else {
        seq![items.take(size)] + chunks(items.skip(size), size)
    }
}

/// `tally` is each term that the documents of `window` carry, once, with how often they do.
pub open spec fn is_tally(docs: Seq<Seq<u32>>, window: Seq<u32>, tally: Seq<(u32, u32)>) -> bool {
    &&& forall|i: int, j: int| 0 <= i < j < tally.len() ==> (#[trigger] tally[i]).0 != (#[trigger] tally[j]).0
    &&& forall|i: int|
        0 <= i < tally.len() ==> (#[trigger] tally[i]).1 == degree(docs, window, tally[i].0) && tally[i].1 > 0
    &&& forall|t: u32| #[trigger]
        degree(docs, window, t) > 0 ==> exists|i: int| 0 <= i < tally.len() && (#[trigger] tally[i]).0 == t
}

/// `count` holds how often each term was met, and `met` the terms that were, once each.
spec fn counted(count: Seq<u32>, met: Seq<u32>) -> bool {
    &&& met.no_duplicates()
    &&& forall|i: int| 0 <= i < met.len() ==> (#[trigger] met[i]) < count.len() && count[met[i] as int] > 0
    &&& forall|t: u32| t < count.len() && #[trigger] count[t as int] > 0 ==> met.contains(t)
}

/// Count the terms of one window. `count` is all zeros before and after.
fn tally_window(fwd: &ForwardIndex, window: &[u32], count: &mut Vec<u32>) -> (tally: Vec<(u32, u32)>)
    requires
        fwd.wf(),
        forall|i: int| 0 <= i < window@.len() ==> #[trigger] window@[i] < fwd@.len(),
        forall|t: u32| #[trigger] degree(fwd@, window@, t) <= u32::MAX,
        old(count)@ == Seq::new(fwd.term_bound() as nat, |t: int| 0u32),
    ensures
        is_tally(fwd@, window@, tally@),
        final(count)@ == old(count)@,
{
    let ghost docs = fwd@;
    let ghost zeros = count@;
    let mut met: Vec<u32> = Vec::new();
    for i in 0..window.len()
        invariant
            docs == fwd@,
            fwd.wf(),
            count@.len() == fwd.term_bound(),
            forall|j: int| 0 <= j < window@.len() ==> #[trigger] window@[j] < docs.len(),
            forall|t: u32| #[trigger] degree(docs, window@, t) <= u32::MAX,
            forall|t: u32| t < count@.len() ==> #[trigger] count@[t as int] == degree(docs, window@.take(i as int), t),
            counted(count@, met@),
    {
        let d: u32 = window[i];
        let terms = fwd.doc(d);
        let ghost before = window@.take(i as int);
        proof {
            assert(window@.take(i + 1).drop_last() =~= before);
            assert forall|t: u32| #![trigger degree(docs, before, t)]
                degree(docs, before, t) + occurrences(terms@, t) <= u32::MAX by {
                assert(window@ =~= window@.take(i + 1) + window@.skip(i + 1));
                lemma_degree_concat(docs, window@.take(i + 1), window@.skip(i + 1), t);
                assert(degree(docs, window@, t) <= u32::MAX);
            }
        }
        for k in 0..terms.len()
            invariant
                docs == fwd@,
                fwd.wf(),
                d < docs.len(),
                terms@ == docs[d as int],
                count@.len() == fwd.term_bound(),
                forall|t: u32| #![trigger degree(docs, before, t)]
                    degree(docs, before, t) + occurrences(terms@, t) <= u32::MAX,
                forall|t: u32|
                    t < count@.len() ==> #[trigger] count@[t as int] == degree(docs, before, t) + occurrences(
                        terms@.take(k as int),
                        t,
                    ),
                counted(count@, met@),
        {
            let t: u32 = terms[k];
            let ghost count0 = count@;
            let ghost met0 = met@;
            proof {
                fwd.lemma_bounds();
                assert(docs[d as int][k as int] < fwd.term_bound());
                assert(terms@.take(k + 1).drop_last() =~= terms@.take(k as int));
                lemma_occurrences_prefix(terms@, k + 1, t);
                assert(degree(docs, before, t) >= 0);
                assert(count@[t as int] == degree(docs, before, t) + occurrences(terms@.take(k as int), t));
            }
            if count[t as usize] == 0 {
                met.push(t);
            }
            count[t as usize] = count[t as usize] + 1;
            proof {
                assert forall|x: u32| x < count@.len() && #[trigger] count@[x as int] > 0 implies met@.contains(x) by {
                    if x == t && count0[t as int] == 0 {
                        assert(met@[met0.len() as int] == t);
                    } else {
                        assert(count0[x as int] > 0);
                        let j = choose|j: int| 0 <= j < met0.len() && met0[j] == x;
                        assert(met@[j] == x);
                    }
                }
                assert forall|j: int| 0 <= j < met@.len() implies (#[trigger] met@[j]) < count@.len()
                    && count@[met@[j] as int] > 0 by {
                    if j < met0.len() {
                        assert(met@[j] == met0[j]);
                        assert(count0[met0[j] as int] > 0);
                    }
                }
                if count0[t as int] == 0 {
                    assert(!met0.contains(t)) by {
                        if met0.contains(t) {
                            let j = choose|j: int| 0 <= j < met0.len() && met0[j] == t;
                            assert(count0[met0[j] as int] > 0);
                        }
                    }
                }
                assert(met@.no_duplicates());
            }
        }
        assert(terms@.take(terms@.len() as int) =~= terms@);
    }
    assert(window@.take(window@.len() as int) =~= window@);
    let ghost full = count@;
    let mut tally: Vec<(u32, u32)> = Vec::new();
    for j in 0..met.len()
        invariant
            count@.len() == full.len(),
            counted(full, met@),
            tally@.len() == j,
            forall|i: int| 0 <= i < j ==> #[trigger] tally@[i] == (met@[i], full[met@[i] as int]),
            forall|i: int| 0 <= i < j ==> count@[#[trigger] met@[i] as int] == 0,
            forall|x: u32|
                x < full.len() ==> #[trigger] count@[x as int] == full[x as int] || count@[x as int] == 0,
            forall|i: int| j <= i < met@.len() ==> count@[#[trigger] met@[i] as int] == full[met@[i] as int],
    {
        let t: u32 = met[j];
        assert(met@[j as int] < full.len());
        tally.push((t, count[t as usize]));
        let ghost count0 = count@;
        count[t as usize] = 0;
        proof {
            assert forall|x: u32| x < full.len() implies #[trigger] count@[x as int] == full[x as int]
                || count@[x as int] == 0 by {
                assert(count0[x as int] == full[x as int] || count0[x as int] == 0);
            }
            assert forall|i: int| j + 1 <= i < met@.len() implies count@[#[trigger] met@[i] as int]
                == full[met@[i] as int] by {
                assert(met@[i] != met@[j as int]);
                assert(count0[met@[i] as int] == full[met@[i] as int]);
                assert(met@[i] < full.len());
            }
            assert forall|i: int| 0 <= i < j + 1 implies count@[#[trigger] met@[i] as int] == 0 by {
                assert(met@[i] < full.len());
            }
        }
    }
    proof {
        fwd.lemma_bounds();
        assert forall|x: int| 0 <= x < count@.len() implies #[trigger] count@[x] == zeros[x] by {
            let t = x as u32;
            lemma_term_fits(fwd, x);
            if full[t as int] > 0 {
                assert(met@.contains(t));
                let i = choose|i: int| 0 <= i < met@.len() && met@[i] == t;
                assert(count@[met@[i] as int] == 0);
            } else {
                assert(count@[t as int] == full[t as int] || count@[t as int] == 0);
            }
        }
        assert(count@ =~= zeros);
        assert forall|t: u32| #[trigger] degree(docs, window@, t) > 0 implies exists|i: int|
            0 <= i < tally@.len() && (#[trigger] tally@[i]).0 == t by {
            lemma_degree_in_bounds(fwd, window@, t);
            assert(full[t as int] > 0);
            let i = choose|i: int| 0 <= i < met@.len() && met@[i] == t;
            assert(tally@[i].0 == t);
        }
        assert forall|i: int| 0 <= i < tally@.len() implies (#[trigger] tally@[i]).1 == degree(
            docs,
            window@,
            tally@[i].0,
        ) && tally@[i].1 > 0 by {
            assert(met@[i] < full.len());
        }
        assert forall|i: int, j: int| 0 <= i < j < tally@.len() implies (#[trigger] tally@[i]).0 != (
        #[trigger] tally@[j]).0 by {
            assert(met@[i] != met@[j]);
        }
    }
    tally
}

/// A number below the term bound is a term id.
proof fn lemma_term_fits(fwd: &ForwardIndex, x: int)
    requires
        fwd.wf(),
        0 <= x < fwd.term_bound(),
    ensures
        x <= u32::MAX,
{
    fwd.lemma_bounds();
    let n = fwd.term_bound() as int;
    let (d, i) = choose|d: int, i: int|
        0 <= d < fwd@.len() && 0 <= i < fwd@[d].len() && #[trigger] fwd@[d][i] == n - 1;
    assert(fwd@[d][i] == n - 1);
}

/// A term that a window's documents carry is below the term bound.
proof fn lemma_degree_in_bounds(fwd: &ForwardIndex, window: Seq<u32>, t: u32)
    requires
        fwd.wf(),
        forall|i: int| 0 <= i < window.len() ==> #[trigger] window[i] < fwd@.len(),
        degree(fwd@, window, t) > 0,
    ensures
        t < fwd.term_bound(),
{
    fwd.lemma_bounds();
    lemma_degree_witness(fwd@, window, t);
    let i = choose|i: int| 0 <= i < window.len() && fwd@[#[trigger] window[i] as int].contains(t);
    let doc = fwd@[window[i] as int];
    let k = choose|k: int| 0 <= k < doc.len() && doc[k] == t;
    assert(fwd@[window[i] as int][k] < fwd.term_bound());
}

/// The tallies of an order's windows, in order: what its cost is summed from. A window is what a
/// posting block is: the fewer distinct terms a window holds, the tighter its postings.
pub fn order_tallies(fwd: &ForwardIndex, order: &[u32], window: usize) -> (tallies: Vec<WindowTally>)
    requires
        fwd.wf(),
        forall|i: int| 0 <= i < order@.len() ==> #[trigger] order@[i] < fwd@.len(),
        forall|t: u32| #[trigger] degree(fwd@, order@, t) <= u32::MAX,
    ensures
        ({
            let windows = chunks(order@, if window == 0 { 1 } else { window as int });
            &&& tallies@.len() == windows.len()
            &&& forall|i: int|
                0 <= i < windows.len() ==> (#[trigger] tallies@[i]).size == windows[i].len() && is_tally(
                    fwd@,
                    windows[i],
                    tallies@[i].degrees@,
                )
        }),
{
    let step: usize = if window == 0 {
        1
    } else {
        window
    };
    let ghost windows = chunks(order@, step as int);
    let mut count: Vec<u32> = vec![0u32; fwd.n_terms()];
    assert(count@ =~= Seq::new(fwd.term_bound() as nat, |t: int| 0u32));
    let mut tallies: Vec<WindowTally> = Vec::new();
    let mut start: usize = 0;
    let ghost mut done: Seq<Seq<u32>> = Seq::empty();
    proof {
        assert(order@.skip(0) =~= order@);
        assert(windows =~= done + chunks(order@.skip(0), step as int));
    }
    while start < order.len()
        invariant
            fwd.wf(),
            step > 0,
            start <= order@.len(),
            forall|i: int| 0 <= i < order@.len() ==> #[trigger] order@[i] < fwd@.len(),
            forall|t: u32| #[trigger] degree(fwd@, order@, t) <= u32::MAX,
            count@ == Seq::new(fwd.term_bound() as nat, |t: int| 0u32),
            windows == done + chunks(order@.skip(start as int), step as int),
            tallies@.len() == done.len(),
            forall|i: int|
                0 <= i < done.len() ==> (#[trigger] tallies@[i]).size == done[i].len() && is_tally(
                    fwd@,
                    done[i],
                    tallies@[i].degrees@,
                ),
        decreases order@.len() - start,
    {
        let end: usize = if order.len() - start <= step {
            order.len()
        } else {
            start + step
        };
        let chunk = &order[start..end];
        let ghost rest = order@.skip(start as int);
        proof {
            assert(order@ =~= order@.take(start as int) + chunk@ + order@.skip(end as int));
            assert forall|t: u32| #[trigger] degree(fwd@, chunk@, t) <= u32::MAX by {
                lemma_degree_concat(fwd@, order@.take(start as int) + chunk@, order@.skip(end as int), t);
                lemma_degree_concat(fwd@, order@.take(start as int), chunk@, t);
                assert(degree(fwd@, order@, t) <= u32::MAX);
            }
            assert forall|i: int| 0 <= i < chunk@.len() implies #[trigger] chunk@[i] < fwd@.len() by {
                assert(chunk@[i] == order@[start + i]);
            }
            if rest.len() <= step {
                assert(chunk@ =~= rest);
                assert(order@.skip(end as int) =~= Seq::empty());
                assert(chunks(rest, step as int) =~= seq![chunk@] + chunks(order@.skip(end as int), step as int));
            } else {
                assert(chunk@ =~= rest.take(step as int));
                assert(rest.skip(step as int) =~= order@.skip(end as int));
            }
            assert(windows =~= done.push(chunk@) + chunks(order@.skip(end as int), step as int));
        }
        let degrees = tally_window(fwd, chunk, &mut count);
        tallies.push(WindowTally { size: chunk.len(), degrees });
        proof {
            done = done.push(chunk@);
        }
        start = end;
    }
    proof {
        assert(order@.skip(start as int) =~= Seq::empty());
        assert(windows =~= done);
    }
    tallies
}

} // verus!
