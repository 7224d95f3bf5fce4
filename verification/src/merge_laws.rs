//! What holds of every merge of sorted dictionaries.
use crate::dictionary::{ascending_terms, Entry};
use crate::term_merge::{
    after_terms, at_first, begins_merge, exhausted, has_head, holders, is_merge, lemma_moved_on_within,
    next_term, nth_term, stands_at, within, MergedTerm,
};
use crate::term_order::{term_lt, term_lt_asymmetric, term_lt_total, term_lt_transitive};
use crate::term_walk::lemma_next_exists;
use vstd::prelude::*;

verus! {

/// Every dictionary is in term order.
pub open spec fn all_ascending(dicts: Seq<Seq<Entry>>) -> bool {
    forall|i: int| 0 <= i < dicts.len() ==> ascending_terms(#[trigger] dicts[i])
}

/// What the merge has passed after `m` terms comes before all that is left, and is among them.
spec fn separated(dicts: Seq<Seq<Entry>>, merged: Seq<MergedTerm>, m: int) -> bool {
    let pos = after_terms(dicts, at_first(dicts.len()), m as nat);
    &&& within(dicts, pos)
    &&& forall|j: int, i: int, k: int|
        0 <= j < m && 0 <= i < dicts.len() && pos[i] <= k < dicts[i].len() ==> term_lt(
            (#[trigger] merged[j]).0,
            (#[trigger] dicts[i][k]).0,
        )
    &&& forall|i: int, k: int|
        0 <= i < dicts.len() && 0 <= k < pos[i] ==> exists|j: int|
            0 <= j < m && (#[trigger] merged[j]).0 == (#[trigger] dicts[i][k]).0
}

proof fn lemma_separated(dicts: Seq<Seq<Entry>>, merged: Seq<MergedTerm>, m: int)
    requires
        all_ascending(dicts),
        begins_merge(dicts, merged),
        0 <= m <= merged.len(),
    ensures
        separated(dicts, merged, m),
    decreases m,
{
    let start = at_first(dicts.len());
    if m == 0 {
        assert forall|i: int| 0 <= i < dicts.len() implies 0 <= #[trigger] start[i] <= dicts[i].len() by {}
    } else {
        lemma_separated(dicts, merged, m - 1);
        let before = after_terms(dicts, start, (m - 1) as nat);
        let pos = after_terms(dicts, start, m as nat);
        let term = next_term(dicts, before);
        assert(!exhausted(dicts, before));
        lemma_next_exists(dicts, before);
        lemma_moved_on_within(dicts, before, term, dicts.len() as int);
        assert(merged[m - 1] == nth_term(dicts, start, (m - 1) as nat));
        assert(merged[m - 1].0 == term);
        assert forall|j: int, i: int, k: int|
            0 <= j < m && 0 <= i < dicts.len() && pos[i] <= k < dicts[i].len() implies term_lt(
            (#[trigger] merged[j]).0,
            (#[trigger] dicts[i][k]).0,
        ) by {
            assert(ascending_terms(dicts[i]));
            assert(0 <= before[i] <= dicts[i].len());
            if j == m - 1 {
                let at = before[i];
                assert(has_head(dicts, before, i));
                let head = dicts[i][at].0;
                assert(!term_lt(head, term));
                if at < k {
                    assert(term_lt(head, dicts[i][k].0));
                }
                if stands_at(dicts, before, term, i) {
                    assert(pos[i] == at + 1);
                } else {
                    term_lt_total(head, term);
                    if at < k {
                        term_lt_transitive(term, head, dicts[i][k].0);
                    }
                }
            }
        }
        assert forall|i: int, k: int| 0 <= i < dicts.len() && 0 <= k < pos[i] implies exists|j: int|
            0 <= j < m && (#[trigger] merged[j]).0 == (#[trigger] dicts[i][k]).0 by {
            if k < before[i] {
                let j = choose|j: int|
                    0 <= j < m - 1 && (#[trigger] merged[j]).0 == (#[trigger] dicts[i][k]).0;
                assert(merged[j].0 == dicts[i][k].0);
            } else {
                assert(stands_at(dicts, before, term, i));
                assert(merged[m - 1].0 == dicts[i][k].0);
            }
        }
    }
}

/// The merged terms come in term order, none twice, however far the merge went.
pub proof fn merged_terms_ascend(dicts: Seq<Seq<Entry>>, merged: Seq<MergedTerm>, a: int, b: int)
    requires
        all_ascending(dicts),
        begins_merge(dicts, merged),
        0 <= a < b < merged.len(),
    ensures
        term_lt(merged[a].0, merged[b].0),
{
    let start = at_first(dicts.len());
    let pos = after_terms(dicts, start, b as nat);
    lemma_separated(dicts, merged, b);
    assert(!exhausted(dicts, pos));
    lemma_next_exists(dicts, pos);
    let term = next_term(dicts, pos);
    assert(merged[b] == nth_term(dicts, start, b as nat));
    let i = choose|i: int| i < dicts.len() && #[trigger] stands_at(dicts, pos, term, i);
    assert(merged[a].0 == merged[a].0 && dicts[i][pos[i]].0 == term);
}

/// An input stands at the next term exactly where its dictionary holds that term.
proof fn lemma_stands_iff_holds(dicts: Seq<Seq<Entry>>, merged: Seq<MergedTerm>, j: int, i: int, k: int)
    requires
        all_ascending(dicts),
        begins_merge(dicts, merged),
        0 <= j < merged.len(),
        0 <= i < dicts.len(),
        0 <= k < dicts[i].len(),
        dicts[i][k].0 == merged[j].0,
    ensures
        after_terms(dicts, at_first(dicts.len()), j as nat)[i] == k,
{
    let start = at_first(dicts.len());
    let pos = after_terms(dicts, start, j as nat);
    lemma_separated(dicts, merged, j);
    assert(!exhausted(dicts, pos));
    lemma_next_exists(dicts, pos);
    assert(merged[j] == nth_term(dicts, start, j as nat));
    assert(0 <= pos[i] <= dicts[i].len());
    if k < pos[i] {
        let h = choose|h: int| 0 <= h < j && (#[trigger] merged[h]).0 == (#[trigger] dicts[i][k]).0;
        merged_terms_ascend(dicts, merged, h, j);
        term_lt_asymmetric(merged[j].0, merged[j].0);
    }
    if pos[i] < k {
        assert(has_head(dicts, pos, i));
        assert(ascending_terms(dicts[i]));
        assert(term_lt(dicts[i][pos[i]].0, dicts[i][k].0));
    }
}

/// The holders of a term are the inputs that stand at it, in input order.
proof fn lemma_holders(dicts: Seq<Seq<Entry>>, pos: Seq<int>, term: Seq<u8>, n: int)
    requires
        0 <= n <= dicts.len() <= usize::MAX,
    ensures
        forall|h: int|
            0 <= h < holders(dicts, pos, term, n).len() ==> {
                let (i, value) = #[trigger] holders(dicts, pos, term, n)[h];
                i < n && stands_at(dicts, pos, term, i as int) && value == dicts[i as int][pos[i as int]].1
            },
        forall|g: int, h: int|
            0 <= g < h < holders(dicts, pos, term, n).len() ==> (#[trigger] holders(dicts, pos, term, n)[g]).0
                < (#[trigger] holders(dicts, pos, term, n)[h]).0,
        forall|i: int|
            i < n && #[trigger] stands_at(dicts, pos, term, i) ==> holders(dicts, pos, term, n).contains(
                (i as usize, dicts[i][pos[i]].1),
            ),
    decreases n,
{
    if n > 0 {
        lemma_holders(dicts, pos, term, n - 1);
        let fewer = holders(dicts, pos, term, n - 1);
        let all = holders(dicts, pos, term, n);
        assert forall|i: int| i < n && #[trigger] stands_at(dicts, pos, term, i) implies all.contains(
            (i as usize, dicts[i][pos[i]].1),
        ) by {
            if i == n - 1 {
                assert(all[fewer.len() as int] == (i as usize, dicts[i][pos[i]].1));
            } else {
                let h = choose|h: int| 0 <= h < fewer.len() && fewer[h] == (i as usize, dicts[i][pos[i]].1);
                assert(all[h] == fewer[h]);
            }
        }
    }
}

/// Every term of every dictionary is in the merge, with the input that holds it and its value.
pub proof fn merge_holds_every_term(dicts: Seq<Seq<Entry>>, merged: Seq<MergedTerm>, i: int, k: int)
    requires
        all_ascending(dicts),
        is_merge(dicts, merged),
        dicts.len() <= usize::MAX,
        0 <= i < dicts.len(),
        0 <= k < dicts[i].len(),
    ensures
        exists|j: int|
            0 <= j < merged.len() && (#[trigger] merged[j]).0 == dicts[i][k].0 && merged[j].1.contains(
                (i as usize, dicts[i][k].1),
            ),
{
    let start = at_first(dicts.len());
    let end = after_terms(dicts, start, merged.len());
    lemma_separated(dicts, merged, merged.len() as int);
    assert(!has_head(dicts, end, i));
    assert(0 <= end[i] <= dicts[i].len());
    assert(k < end[i]);
    let j = choose|j: int|
        0 <= j < merged.len() && (#[trigger] merged[j]).0 == (#[trigger] dicts[i][k]).0;
    let pos = after_terms(dicts, start, j as nat);
    lemma_stands_iff_holds(dicts, merged, j, i, k);
    assert(merged[j] == nth_term(dicts, start, j as nat));
    lemma_holders(dicts, pos, merged[j].0, dicts.len() as int);
    assert(stands_at(dicts, pos, merged[j].0, i));
}

/// However far a merge went, every entry that does not come after its last term is in it, with the
/// input that holds it and its value.
pub proof fn a_begun_merge_holds_every_earlier_term(
    dicts: Seq<Seq<Entry>>,
    merged: Seq<MergedTerm>,
    i: int,
    k: int,
)
    requires
        all_ascending(dicts),
        begins_merge(dicts, merged),
        dicts.len() <= usize::MAX,
        merged.len() > 0,
        0 <= i < dicts.len(),
        0 <= k < dicts[i].len(),
        !term_lt(merged[merged.len() - 1].0, dicts[i][k].0),
    ensures
        exists|j: int|
            0 <= j < merged.len() && (#[trigger] merged[j]).0 == dicts[i][k].0 && merged[j].1.contains(
                (i as usize, dicts[i][k].1),
            ),
{
    let start = at_first(dicts.len());
    let end = after_terms(dicts, start, merged.len());
    lemma_separated(dicts, merged, merged.len() as int);
    assert(0 <= end[i] <= dicts[i].len());
    if end[i] <= k {
        assert(term_lt(merged[merged.len() - 1].0, dicts[i][k].0));
    }
    let j = choose|j: int|
        0 <= j < merged.len() && (#[trigger] merged[j]).0 == (#[trigger] dicts[i][k]).0;
    let pos = after_terms(dicts, start, j as nat);
    lemma_stands_iff_holds(dicts, merged, j, i, k);
    assert(merged[j] == nth_term(dicts, start, j as nat));
    lemma_holders(dicts, pos, merged[j].0, dicts.len() as int);
    assert(stands_at(dicts, pos, merged[j].0, i));
}

/// Every input that a merged term names holds that term with that value, and the inputs are named
/// in input order, at least one.
pub proof fn merge_holds_only_terms(dicts: Seq<Seq<Entry>>, merged: Seq<MergedTerm>, j: int)
    requires
        all_ascending(dicts),
        begins_merge(dicts, merged),
        dicts.len() <= usize::MAX,
        0 <= j < merged.len(),
    ensures
        merged[j].1.len() > 0,
        forall|h: int|
            0 <= h < merged[j].1.len() ==> {
                let (i, value) = #[trigger] merged[j].1[h];
                i < dicts.len() && dicts[i as int].contains((merged[j].0, value))
            },
        forall|g: int, h: int|
            0 <= g < h < merged[j].1.len() ==> (#[trigger] merged[j].1[g]).0 < (#[trigger] merged[j].1[h]).0,
{
    let start = at_first(dicts.len());
    let pos = after_terms(dicts, start, j as nat);
    let term = next_term(dicts, pos);
    assert(merged[j] == nth_term(dicts, start, j as nat));
    assert(!exhausted(dicts, pos));
    lemma_next_exists(dicts, pos);
    lemma_holders(dicts, pos, term, dicts.len() as int);
    let i = choose|i: int| i < dicts.len() && #[trigger] stands_at(dicts, pos, term, i);
    assert(merged[j].1.contains((i as usize, dicts[i][pos[i]].1)));
    assert forall|h: int| 0 <= h < merged[j].1.len() implies {
        let (i, value) = #[trigger] merged[j].1[h];
        i < dicts.len() && dicts[i as int].contains((merged[j].0, value))
    } by {
        let (i, value) = merged[j].1[h];
        assert(dicts[i as int][pos[i as int]] == (merged[j].0, value));
    }
}

/// There is one merge of given dictionaries.
pub proof fn merge_is_unique(dicts: Seq<Seq<Entry>>, a: Seq<MergedTerm>, b: Seq<MergedTerm>)
    requires
        is_merge(dicts, a),
        is_merge(dicts, b),
    ensures
        a == b,
{
    let start = at_first(dicts.len());
    if a.len() < b.len() {
        let m = a.len() as int;
        assert(!exhausted(dicts, after_terms(dicts, start, m as nat)));
    }
    if b.len() < a.len() {
        let m = b.len() as int;
        assert(!exhausted(dicts, after_terms(dicts, start, m as nat)));
    }
}

} // verus!
