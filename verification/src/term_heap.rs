//! A min-heap of the terms that several inputs stand at.
use crate::term_order::{term_less, term_lt, term_lt_asymmetric, term_lt_total, term_lt_transitive};
use vstd::multiset::Multiset;
use vstd::prelude::*;

verus! {

/// A term, and the input that stands at it.
pub type Head = (Seq<u8>, usize);

/// `a` comes no later than `b`: by term, and for one term by input.
pub open spec fn head_le(a: Head, b: Head) -> bool {
    term_lt(a.0, b.0) || (a.0 == b.0 && a.1 <= b.1)
}

/// The order of heads is transitive.
pub proof fn head_le_transitive(a: Head, b: Head, c: Head)
    requires
        head_le(a, b),
        head_le(b, c),
    ensures
        head_le(a, c),
{
    if term_lt(a.0, b.0) && term_lt(b.0, c.0) {
        term_lt_transitive(a.0, b.0, c.0);
    }
}

/// Two heads that each come no later than the other are the same.
pub proof fn head_le_antisymmetric(a: Head, b: Head)
    requires
        head_le(a, b),
        head_le(b, a),
    ensures
        a == b,
{
    term_lt_asymmetric(a.0, b.0);
    term_lt_asymmetric(b.0, a.0);
}

/// The node above node `i` of a heap.
spec fn parent(i: int) -> int {
    (i - 1) / 2
}

/// Every node but the root comes no earlier than the one above it.
spec fn is_heap(heads: Seq<Head>) -> bool {
    forall|j: int| 1 <= j < heads.len() ==> head_le(heads[parent(j)], #[trigger] heads[j])
}

/// A heap but for node `i`, which may come before the one above it.
spec fn heap_but_above(heads: Seq<Head>, i: int) -> bool {
    &&& forall|j: int| 1 <= j < heads.len() && j != i ==> head_le(heads[parent(j)], #[trigger] heads[j])
    &&& forall|j: int|
        1 <= j < heads.len() && parent(j) == i && i > 0 ==> head_le(heads[parent(i)], #[trigger] heads[j])
}

/// A heap but for node `i`, which may come after those below it.
spec fn heap_but_below(heads: Seq<Head>, i: int) -> bool {
    &&& forall|j: int|
        1 <= j < heads.len() && parent(j) != i ==> head_le(heads[parent(j)], #[trigger] heads[j])
    &&& forall|j: int|
        1 <= j < heads.len() && parent(j) == i && i > 0 ==> head_le(heads[parent(i)], #[trigger] heads[j])
}

/// The root of a heap comes no later than any node.
proof fn lemma_root_first(heads: Seq<Head>, i: int)
    requires
        is_heap(heads),
        0 <= i < heads.len(),
    ensures
        head_le(heads[0], heads[i]),
    decreases i,
{
    if i > 0 {
        lemma_root_first(heads, parent(i));
        head_le_transitive(heads[0], heads[parent(i)], heads[i]);
    }
}

/// Exchanging two elements of a sequence keeps its elements.
proof fn lemma_exchange_multiset<A>(s: Seq<A>, a: int, b: int)
    requires
        0 <= a < s.len(),
        0 <= b < s.len(),
    ensures
        s.update(a, s[b]).update(b, s[a]).to_multiset() == s.to_multiset(),
{
    broadcast use vstd::multiset::group_multiset_axioms;

    let once = s.update(a, s[b]);
    vstd::seq_lib::to_multiset_update(s, a, s[b]);
    vstd::seq_lib::to_multiset_update(once, b, s[a]);
    assert(s.contains(s[a]));
    vstd::seq_lib::to_multiset_contains(s, s[a]);
    assert(once.contains(once[b]));
    vstd::seq_lib::to_multiset_contains(once, once[b]);
    assert(once.update(b, s[a]).to_multiset() =~= s.to_multiset());
}

/// Whether head `a` comes before head `b`.
fn precedes(a: &(Vec<u8>, usize), b: &(Vec<u8>, usize)) -> (r: bool)
    ensures
        r ==> head_le((a.0@, a.1), (b.0@, b.1)),
        !r ==> head_le((b.0@, b.1), (a.0@, a.1)),
{
    proof {
        term_lt_total(a.0@, b.0@);
    }
    if term_less(&a.0, &b.0) {
        true
    } else if term_less(&b.0, &a.0) {
        false
    } else {
        a.1 < b.1
    }
}

/// Min-heap of each input's current term. Its view is the heads it holds; ties come out in input
/// order.
pub struct TermHeap {
    items: Vec<(Vec<u8>, usize)>,
}

impl View for TermHeap {
    type V = Multiset<Head>;

    closed spec fn view(&self) -> Multiset<Head> {
        self.heads().to_multiset()
    }
}

impl TermHeap {
    spec fn heads(&self) -> Seq<Head> {
        Seq::new(self.items@.len(), |i: int| (self.items@[i].0@, self.items@[i].1))
    }

    /// Every node comes no earlier than the one above it.
    pub closed spec fn wf(&self) -> bool {
        is_heap(self.heads())
    }

    /// The first head comes no later than any other that the heap holds.
    pub open spec fn is_first(&self, head: Head) -> bool {
        &&& self@.contains(head)
        &&& forall|other: Head| #[trigger] self@.contains(other) ==> head_le(head, other)
    }

    /// A heap that holds nothing.
    pub fn new() -> (heap: Self)
        ensures
            heap.wf(),
            heap@ == Multiset::<Head>::empty(),
    {
        let heap = TermHeap { items: Vec::new() };
        proof {
            vstd::seq_lib::to_multiset_len(heap.heads());
            assert(heap@ =~= Multiset::<Head>::empty()) by {
                broadcast use vstd::multiset::group_multiset_axioms;

                assert(heap.heads() =~= Seq::<Head>::empty());
                assert forall|x: Head| heap@.count(x) == 0 by {
                    vstd::seq_lib::to_multiset_contains(heap.heads(), x);
                }
            }
        }
        heap
    }

    proof fn lemma_root_is_first(&self)
        requires
            self.wf(),
            self.heads().len() > 0,
        ensures
            self.is_first(self.heads()[0]),
    {
        let heads = self.heads();
        assert(heads.contains(heads[0]));
        vstd::seq_lib::to_multiset_contains(heads, heads[0]);
        assert forall|other: Head| #[trigger] self@.contains(other) implies head_le(heads[0], other) by {
            vstd::seq_lib::to_multiset_contains(heads, other);
            let i = choose|i: int| 0 <= i < heads.len() && heads[i] == other;
            lemma_root_first(heads, i);
        }
    }

    proof fn lemma_none_iff_empty(&self)
        ensures
            self.heads().len() == 0 <==> self@ == Multiset::<Head>::empty(),
    {
        broadcast use vstd::multiset::group_multiset_axioms;

        vstd::seq_lib::to_multiset_len(self.heads());
        if self.heads().len() == 0 {
            assert forall|x: Head| self@.count(x) == 0 by {
                vstd::seq_lib::to_multiset_contains(self.heads(), x);
            }
            assert(self@ =~= Multiset::<Head>::empty());
        }
    }

    /// The first head, left where it is.
    pub fn peek(&self) -> (first: Option<&(Vec<u8>, usize)>)
        requires
            self.wf(),
        ensures
            first is None <==> self@ == Multiset::<Head>::empty(),
            first matches Some(head) ==> self.is_first((head.0@, head.1)),
    {
        proof {
            self.lemma_none_iff_empty();
        }
        if self.items.len() == 0 {
            return None;
        }
        proof {
            self.lemma_root_is_first();
        }
        Some(&self.items[0])
    }

    /// Add a head.
    pub fn push(&mut self, term: Vec<u8>, input: usize)
        requires
            old(self).wf(),
        ensures
            final(self).wf(),
            final(self)@ == old(self)@.insert((term@, input)),
    {
        let ghost head = (term@, input);
        let ghost before = self.heads();
        let mut i: usize = self.items.len();
        self.items.push((term, input));
        proof {
            assert(self.heads() =~= before.push(head));
            vstd::seq_lib::to_multiset_build(before, head);
            assert forall|j: int| 1 <= j < self.heads().len() && j != i implies head_le(
                self.heads()[parent(j)],
                #[trigger] self.heads()[j],
            ) by {
                assert(before[j] == self.heads()[j]);
            }
        }
        while i > 0
            invariant
                i < self.items@.len(),
                head == (term@, input),
                heap_but_above(self.heads(), i as int),
                self@ == old(self)@.insert(head),
            decreases i,
        {
            let up: usize = (i - 1) / 2;
            let ghost h = self.heads();
            if !precedes(&self.items[i], &self.items[up]) {
                assert(is_heap(h)) by {
                    assert forall|j: int| 1 <= j < h.len() implies head_le(h[parent(j)], #[trigger] h[j]) by {
                        if j == i {
                            assert(parent(j) == up);
                        }
                    }
                }
                return ;
            }
            swap_items(&mut self.items, i, up);
            proof {
                let s = self.heads();
                assert(s =~= h.update(i as int, h[up as int]).update(up as int, h[i as int]));
                lemma_exchange_multiset(h, i as int, up as int);
                assert forall|j: int| 1 <= j < s.len() && j != up implies head_le(s[parent(j)], #[trigger] s[j]) by {
                    assert(s[j] == if j == i { h[up as int] } else { h[j] });
                    if j == i {
                        assert(parent(j) == up);
                    } else if parent(j) == up {
                        assert(head_le(h[parent(j)], h[j]));
                        head_le_transitive(h[i as int], h[up as int], h[j]);
                    } else if parent(j) == i {
                        assert(head_le(h[parent(i as int)], h[j]));
                    } else {
                        assert(head_le(h[parent(j)], h[j]));
                    }
                }
                assert forall|j: int| 1 <= j < s.len() && parent(j) == up && up > 0 implies head_le(
                    s[parent(up as int)],
                    #[trigger] s[j],
                ) by {
                    assert(head_le(h[parent(up as int)], h[up as int]));
                    assert(s[j] == if j == i { h[up as int] } else { h[j] });
                    if j != i {
                        assert(head_le(h[parent(j)], h[j]));
                        head_le_transitive(h[parent(up as int)], h[up as int], h[j]);
                    }
                }
            }
            i = up;
        }
    }

    /// Take the first head out.
    pub fn pop(&mut self) -> (first: Option<(Vec<u8>, usize)>)
        requires
            old(self).wf(),
        ensures
            final(self).wf(),
            first is None <==> old(self)@ == Multiset::<Head>::empty(),
            first is None ==> final(self)@ == old(self)@,
            first matches Some(head) ==> {
                &&& old(self).is_first((head.0@, head.1))
                &&& final(self)@ == old(self)@.remove((head.0@, head.1))
            },
    {
        let ghost before = self.heads();
        proof {
            self.lemma_none_iff_empty();
        }
        let n: usize = self.items.len();
        if n == 0 {
            return None;
        }
        proof {
            self.lemma_root_is_first();
        }
        let last: usize = n - 1;
        swap_items(&mut self.items, 0, last);
        let first = match self.items.pop() {
            Some(first) => first,
            None => {
                return None;
            },
        };
        proof {
            let h = self.heads();
            let moved = before.update(0, before[last as int]).update(last as int, before[0]);
            lemma_exchange_multiset(before, 0, last as int);
            assert(h =~= moved.remove(last as int));
            vstd::seq_lib::to_multiset_remove(moved, last as int);
            assert((first.0@, first.1) == before[0]);
            assert forall|j: int| 1 <= j < h.len() && parent(j) != 0 implies head_le(
                h[parent(j)],
                #[trigger] h[j],
            ) by {
                assert(before[j] == h[j]);
                assert(head_le(before[parent(j)], before[j]));
            }
        }
        self.sink();
        Some(first)
    }

    /// Let the root sink to where it belongs.
    fn sink(&mut self)
        requires
            heap_but_below(old(self).heads(), 0),
        ensures
            final(self).wf(),
            final(self)@ == old(self)@,
    {
        let n: usize = self.items.len();
        let mut i: usize = 0;
        while i < n / 2
            invariant
                n == self.items@.len(),
                heap_but_below(self.heads(), i as int),
                self@ == old(self)@,
            decreases n - i,
        {
            let left: usize = 2 * i + 1;
            let mut down: usize = left;
            if left + 1 < n && precedes(&self.items[left + 1], &self.items[left]) {
                down = left + 1;
            }
            let ghost h = self.heads();
            assert(forall|j: int| 1 <= j < n && parent(j) == i ==> j == left || j == left + 1);
            if !precedes(&self.items[down], &self.items[i]) {
                assert(is_heap(h)) by {
                    assert forall|j: int| 1 <= j < h.len() implies head_le(h[parent(j)], #[trigger] h[j]) by {
                        if parent(j) == i && j != down {
                            head_le_transitive(h[i as int], h[down as int], h[j]);
                        }
                    }
                }
                return ;
            }
            swap_items(&mut self.items, i, down);
            proof {
                let s = self.heads();
                assert(s =~= h.update(i as int, h[down as int]).update(down as int, h[i as int]));
                lemma_exchange_multiset(h, i as int, down as int);
                assert(parent(down as int) == i);
                assert forall|j: int| 1 <= j < s.len() && parent(j) != down implies head_le(
                    s[parent(j)],
                    #[trigger] s[j],
                ) by {
                    if j == down {
                    } else if parent(j) == i {
                        assert(s[j] == h[j]);
                    } else if j == i {
                        assert(head_le(h[parent(i as int)], h[down as int]));
                    } else {
                        assert(s[j] == h[j]);
                        assert(head_le(h[parent(j)], h[j]));
                    }
                }
                assert forall|j: int| 1 <= j < s.len() && parent(j) == down && down > 0 implies head_le(
                    s[parent(down as int)],
                    #[trigger] s[j],
                ) by {
                    assert(s[j] == h[j]);
                    assert(head_le(h[parent(j)], h[j]));
                }
            }
            i = down;
        }
        assert(forall|j: int| 1 <= j < n ==> parent(j) < n / 2);
    }
}

/// Let the elements at `a` and `b` change places.
fn swap_items<T>(items: &mut Vec<T>, a: usize, b: usize)
    requires
        a < old(items)@.len(),
        b < old(items)@.len(),
    ensures
        final(items)@ == old(items)@.update(a as int, old(items)@[b as int]).update(
            b as int,
            old(items)@[a as int],
        ),
{
    if a == b {
        assert(items@ =~= old(items)@.update(a as int, items@[b as int]));
        return;
    }
    let (lo, hi): (usize, usize) = if a < b {
        (a, b)
    } else {
        (b, a)
    };
    let (left, right) = items.as_mut_slice().split_at_mut(hi);
    std::mem::swap(&mut left[lo], &mut right[0]);
}

} // verus!
