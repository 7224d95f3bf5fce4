//! What a merge of sorted dictionaries yields: every term once, in order, with the inputs that
//! hold it.
use crate::dictionary::{Entry, FstValue};
use crate::term_order::{term_lt, term_lt_total};
use vstd::prelude::*;

verus! {

/// A term of the merge: its bytes, and each input that holds it with that input's value.
pub type MergedTerm = (Seq<u8>, Seq<(usize, FstValue)>);

/// Input `i` has not been walked to its end.
pub open spec fn has_head(dicts: Seq<Seq<Entry>>, pos: Seq<int>, i: int) -> bool {
    0 <= i < dicts.len() && 0 <= pos[i] < dicts[i].len()
}

/// The term that input `i` stands at.
pub open spec fn head_term(dicts: Seq<Seq<Entry>>, pos: Seq<int>, i: int) -> Seq<u8> {
    dicts[i][pos[i]].0
}

/// Every input has been walked to its end.
pub open spec fn exhausted(dicts: Seq<Seq<Entry>>, pos: Seq<int>) -> bool {
    forall|i: int| !#[trigger] has_head(dicts, pos, i)
}

/// `term` is the first of the terms that the inputs stand at.
pub open spec fn is_next(dicts: Seq<Seq<Entry>>, pos: Seq<int>, term: Seq<u8>) -> bool {
    &&& exists|i: int| #[trigger] has_head(dicts, pos, i) && head_term(dicts, pos, i) == term
    &&& forall|i: int| #[trigger] has_head(dicts, pos, i) ==> !term_lt(head_term(dicts, pos, i), term)
}

/// The first of the terms that the inputs stand at.
pub open spec fn next_term(dicts: Seq<Seq<Entry>>, pos: Seq<int>) -> Seq<u8> {
    choose|term: Seq<u8>| is_next(dicts, pos, term)
}

/// Input `i` stands at `term`.
pub open spec fn stands_at(dicts: Seq<Seq<Entry>>, pos: Seq<int>, term: Seq<u8>, i: int) -> bool {
    has_head(dicts, pos, i) && head_term(dicts, pos, i) == term
}

/// The inputs before `n` that stand at `term`, each with its value, in input order.
pub open spec fn holders(
    dicts: Seq<Seq<Entry>>,
    pos: Seq<int>,
    term: Seq<u8>,
    n: int,
) -> Seq<(usize, FstValue)>
    decreases n,
{
    if n <= 0 {
        Seq::empty()
    } else if stands_at(dicts, pos, term, n - 1) {
        holders(dicts, pos, term, n - 1).push(((n - 1) as usize, dicts[n - 1][pos[n - 1]].1))
    } else {
        holders(dicts, pos, term, n - 1)
    }
}

/// Where the inputs stand once those before `n` that stand at `term` have moved on.
pub open spec fn moved_on(dicts: Seq<Seq<Entry>>, pos: Seq<int>, term: Seq<u8>, n: int) -> Seq<int> {
    Seq::new(
        pos.len(),
        |i: int|
            if i < n && stands_at(dicts, pos, term, i) {
                pos[i] + 1
            } else {
                pos[i]
            },
    )
}

/// Where the inputs stand after `m` terms of the merge.
pub open spec fn after_terms(dicts: Seq<Seq<Entry>>, pos: Seq<int>, m: nat) -> Seq<int>
    decreases m,
{
    if m == 0 {
        pos
    } else {
        let p = after_terms(dicts, pos, (m - 1) as nat);
        moved_on(dicts, p, next_term(dicts, p), dicts.len() as int)
    }
}

/// Term `m` of the merge.
pub open spec fn nth_term(dicts: Seq<Seq<Entry>>, pos: Seq<int>, m: nat) -> MergedTerm {
    let p = after_terms(dicts, pos, m);
    let term = next_term(dicts, p);
    (term, holders(dicts, p, term, dicts.len() as int))
}

/// The first `m` terms of the merge.
pub open spec fn first_terms(dicts: Seq<Seq<Entry>>, pos: Seq<int>, m: nat) -> Seq<MergedTerm> {
    Seq::new(m, |j: int| nth_term(dicts, pos, j as nat))
}

/// Every input at its first entry.
pub open spec fn at_first(n: nat) -> Seq<int> {
    Seq::new(n, |i: int| 0int)
}

/// `merged` is the whole merge of `dicts`.
pub open spec fn is_merge(dicts: Seq<Seq<Entry>>, merged: Seq<MergedTerm>) -> bool {
    let start = at_first(dicts.len());
    &&& begins_merge(dicts, merged)
    &&& exhausted(dicts, after_terms(dicts, start, merged.len()))
}

/// `merged` is the first terms of the merge of `dicts`.
pub open spec fn begins_merge(dicts: Seq<Seq<Entry>>, merged: Seq<MergedTerm>) -> bool {
    let start = at_first(dicts.len());
    &&& merged == first_terms(dicts, start, merged.len())
    &&& forall|m: int|
        0 <= m < merged.len() ==> !#[trigger] exhausted(dicts, after_terms(dicts, start, m as nat))
}

/// There is one first term.
pub proof fn lemma_next_unique(dicts: Seq<Seq<Entry>>, pos: Seq<int>, term: Seq<u8>)
    requires
        is_next(dicts, pos, term),
    ensures
        next_term(dicts, pos) == term,
{
    let other = next_term(dicts, pos);
    assert(is_next(dicts, pos, other));
    let i = choose|i: int| #[trigger] has_head(dicts, pos, i) && head_term(dicts, pos, i) == term;
    let j = choose|j: int| #[trigger] has_head(dicts, pos, j) && head_term(dicts, pos, j) == other;
    assert(has_head(dicts, pos, i) && has_head(dicts, pos, j));
    term_lt_total(term, other);
}

/// How many entries the inputs before `n` have left.
pub open spec fn entries_left(dicts: Seq<Seq<Entry>>, pos: Seq<int>, n: int) -> int
    decreases n,
{
    if n <= 0 {
        0
    } else {
        entries_left(dicts, pos, n - 1) + dicts[n - 1].len() - pos[n - 1]
    }
}

/// Every input stands at one of its entries, or past the last.
pub open spec fn within(dicts: Seq<Seq<Entry>>, pos: Seq<int>) -> bool {
    &&& pos.len() == dicts.len()
    &&& forall|i: int| 0 <= i < dicts.len() ==> 0 <= #[trigger] pos[i] <= dicts[i].len()
}

/// Moving on from the first term leaves every input within its dictionary.
pub proof fn lemma_moved_on_within(dicts: Seq<Seq<Entry>>, pos: Seq<int>, term: Seq<u8>, n: int)
    requires
        within(dicts, pos),
    ensures
        within(dicts, moved_on(dicts, pos, term, n)),
{
    let p = moved_on(dicts, pos, term, n);
    assert forall|i: int| 0 <= i < dicts.len() implies 0 <= #[trigger] p[i] <= dicts[i].len() by {
        assert(0 <= pos[i] <= dicts[i].len());
    }
}

/// Moving on from a term leaves no more entries, and fewer where an input stood at it.
pub proof fn lemma_entries_left(dicts: Seq<Seq<Entry>>, pos: Seq<int>, term: Seq<u8>, n: int)
    requires
        within(dicts, pos),
        0 <= n <= dicts.len(),
    ensures
        0 <= entries_left(dicts, pos, n),
        entries_left(dicts, moved_on(dicts, pos, term, dicts.len() as int), n) <= entries_left(
            dicts,
            pos,
            n,
        ),
        (exists|i: int| i < n && #[trigger] stands_at(dicts, pos, term, i)) ==> entries_left(
            dicts,
            moved_on(dicts, pos, term, dicts.len() as int),
            n,
        ) < entries_left(dicts, pos, n),
    decreases n,
{
    if n > 0 {
        lemma_entries_left(dicts, pos, term, n - 1);
        assert(0 <= pos[n - 1] <= dicts[n - 1].len());
        if exists|i: int| i < n && #[trigger] stands_at(dicts, pos, term, i) {
            let i = choose|i: int| i < n && #[trigger] stands_at(dicts, pos, term, i);
            if i < n - 1 {
                assert(stands_at(dicts, pos, term, i));
            }
        }
    }
}

/// Going on after some terms is going on from where they ended.
pub proof fn lemma_after_both(dicts: Seq<Seq<Entry>>, pos: Seq<int>, a: nat, b: nat)
    ensures
        after_terms(dicts, after_terms(dicts, pos, a), b) == after_terms(dicts, pos, a + b),
    decreases b,
{
    if b > 0 {
        lemma_after_both(dicts, pos, a, (b - 1) as nat);
        assert((a + b - 1) as nat == a + (b - 1) as nat);
    }
}

/// The first terms, and the terms from where they ended, are the first terms together.
pub proof fn lemma_begins_both(dicts: Seq<Seq<Entry>>, a: Seq<MergedTerm>, b: Seq<MergedTerm>)
    requires
        begins_merge(dicts, a),
        ({
            let pos = after_terms(dicts, at_first(dicts.len()), a.len());
            &&& b == first_terms(dicts, pos, b.len())
            &&& forall|j: int|
                0 <= j < b.len() ==> !#[trigger] exhausted(dicts, after_terms(dicts, pos, j as nat))
        }),
    ensures
        begins_merge(dicts, a + b),
        after_terms(dicts, after_terms(dicts, at_first(dicts.len()), a.len()), b.len()) == after_terms(
            dicts,
            at_first(dicts.len()),
            (a + b).len(),
        ),
{
    let start = at_first(dicts.len());
    let pos = after_terms(dicts, start, a.len());
    lemma_after_both(dicts, start, a.len(), b.len());
    assert forall|m: int| 0 <= m < (a + b).len() implies !#[trigger] exhausted(
        dicts,
        after_terms(dicts, start, m as nat),
    ) && (a + b)[m] == nth_term(dicts, start, m as nat) by {
        if m < a.len() {
            assert((a + b)[m] == first_terms(dicts, start, a.len())[m]);
        } else {
            let j = (m - a.len()) as nat;
            lemma_after_both(dicts, start, a.len(), j);
            assert(a.len() + j == m as nat);
            assert(!exhausted(dicts, after_terms(dicts, pos, j)));
            assert((a + b)[m] == first_terms(dicts, pos, b.len())[j as int]);
        }
    }
    let both = first_terms(dicts, start, (a + b).len());
    assert forall|m: int| 0 <= m < (a + b).len() implies (a + b)[m] == #[trigger] both[m] by {
        assert(!exhausted(dicts, after_terms(dicts, start, m as nat)));
    }
    assert(a + b =~= both);
}

/// The first of the first terms are first terms too.
pub proof fn lemma_begins_fewer(dicts: Seq<Seq<Entry>>, a: Seq<MergedTerm>, b: Seq<MergedTerm>)
    requires
        begins_merge(dicts, a + b),
    ensures
        begins_merge(dicts, a),
{
    let start = at_first(dicts.len());
    let fewer = first_terms(dicts, start, a.len());
    assert forall|m: int| 0 <= m < a.len() implies a[m] == #[trigger] fewer[m] by {
        assert((a + b)[m] == first_terms(dicts, start, (a + b).len())[m]);
    }
    assert(a =~= fewer);
}

} // verus!
