//! Terms walked off the dictionaries, waiting to be merged together.
use crate::dictionary::FstValue;
use crate::term_merge::MergedTerm;
use std::ops::Range;
use vstd::prelude::*;

verus! {

/// Most terms in one parallel batch.
pub const BATCH_TERMS: usize = 65536;

/// Most posting bytes in one batch, as the dictionary's length hints count them, so a batch of
/// very common terms stays bounded in memory. A term larger than this is a batch of its own.
pub const BATCH_POSTING_BYTES: u64 = 67108864;

/// Terms one parallel task takes, so it takes a worker's scratch once per few hundred terms rather
/// than once per term.
pub const TASK_TERMS: usize = 256;

/// How a merge divides its work. What is merged does not depend on it.
#[derive(Clone, Copy, Debug)]
pub struct BatchLimits {
    /// Most terms in one batch.
    pub terms: usize,
    /// Most posting bytes in one batch, unless one term alone has more.
    pub posting_bytes: u64,
    /// Terms one parallel task takes.
    pub task_terms: usize,
}

impl Default for BatchLimits {
    fn default() -> (limits: Self)
        ensures
            limits.terms == BATCH_TERMS,
            limits.posting_bytes == BATCH_POSTING_BYTES,
            limits.task_terms == TASK_TERMS,
            limits.terms == 65536 && limits.posting_bytes == 67108864 && limits.task_terms == 256,
    {
        BatchLimits {
            terms: BATCH_TERMS,
            posting_bytes: BATCH_POSTING_BYTES,
            task_terms: TASK_TERMS,
        }
    }
}

/// How many tasks of `task_terms` terms there are in `n` terms, the last of them perhaps shorter.
pub open spec fn tasks_in(n: int, task_terms: nat) -> nat
    decreases
        if n > 0 {
            n
        } else {
            0
        },
{
    if n <= 0 || task_terms == 0 {
        0
    } else {
        1 + tasks_in(n - task_terms, task_terms)
    }
}

/// Fewer terms are no more tasks.
pub proof fn lemma_fewer_tasks(a: int, b: int, task_terms: nat)
    requires
        a <= b,
    ensures
        tasks_in(a, task_terms) <= tasks_in(b, task_terms),
    decreases
        if b > 0 {
            b
        } else {
            0
        },
{
    if a > 0 && task_terms > 0 {
        lemma_fewer_tasks(a - task_terms, b - task_terms, task_terms);
    }
}

/// The most tasks that a batch of `n` terms or fewer can have under `limits`.
pub open spec fn most_tasks(limits: BatchLimits, n: nat) -> nat {
    let most_terms = if limits.terms > 0 {
        limits.terms as int
    } else {
        1
    };
    tasks_in(
        if n <= most_terms {
            n as int
        } else {
            most_terms
        },
        limits.task_terms as nat,
    )
}

/// The posting bytes that a dictionary value announces.
pub open spec fn hinted_bytes(value: FstValue) -> nat {
    match value {
        FstValue::Pfor { postings_length_hint: Some(len), .. } => len as nat,
        _ => 0,
    }
}

/// The posting bytes that the values of `inputs` announce, all together.
pub open spec fn total_hinted(inputs: Seq<(usize, FstValue)>) -> nat
    decreases inputs.len(),
{
    if inputs.len() == 0 {
        0
    } else {
        total_hinted(inputs.drop_last()) + hinted_bytes(inputs.last().1)
    }
}

/// Each value announces what fits in 32 bits.
proof fn lemma_hinted_bounded(inputs: Seq<(usize, FstValue)>)
    ensures
        total_hinted(inputs) <= inputs.len() * u32::MAX,
    decreases inputs.len(),
{
    if inputs.len() > 0 {
        lemma_hinted_bounded(inputs.drop_last());
    }
}

/// The posting bytes of two lists of inputs are those of both together.
pub proof fn lemma_hinted_both(a: Seq<(usize, FstValue)>, b: Seq<(usize, FstValue)>)
    ensures
        total_hinted(a + b) == total_hinted(a) + total_hinted(b),
    decreases b.len(),
{
    if b.len() == 0 {
        assert(a + b =~= a);
    } else {
        lemma_hinted_both(a, b.drop_last());
        assert((a + b).drop_last() =~= a + b.drop_last());
    }
}

/// One term waiting in a batch: where its bytes and its inputs' dictionary values sit in the
/// batch's shared buffers.
pub struct PendingTerm {
    pub term: Range<usize>,
    pub inputs: Range<usize>,
}

/// Terms walked off the dictionaries, waiting to be merged together. Its view is those terms.
pub struct Batch {
    terms: Vec<PendingTerm>,
    term_bytes: Vec<u8>,
    /// `(input, that input's dictionary value)` for every term's inputs.
    inputs: Vec<(usize, FstValue)>,
    posting_bytes: u128,
}

impl View for Batch {
    type V = Seq<MergedTerm>;

    closed spec fn view(&self) -> Seq<MergedTerm> {
        Seq::new(self.terms@.len(), |k: int| self.pending_view(self.terms@[k]))
    }
}

impl Batch {
    /// The term that `pending` waits for.
    pub closed spec fn pending_view(&self, pending: PendingTerm) -> MergedTerm {
        (
            self.term_bytes@.subrange(pending.term.start as int, pending.term.end as int),
            self.inputs@.subrange(pending.inputs.start as int, pending.inputs.end as int),
        )
    }

    /// `pending` points into the batch's buffers.
    pub closed spec fn holds(&self, pending: PendingTerm) -> bool {
        &&& pending.term.start <= pending.term.end <= self.term_bytes@.len()
        &&& pending.inputs.start <= pending.inputs.end <= self.inputs@.len()
    }

    /// Every term waiting points into the batch's buffers, and the posting bytes are those of its
    /// inputs.
    pub closed spec fn wf(&self) -> bool {
        &&& forall|k: int| 0 <= k < self.terms@.len() ==> self.holds(#[trigger] self.terms@[k])
        &&& self.posting_bytes == total_hinted(self.inputs@)
    }

    /// Every input taken up, in the order they were.
    pub closed spec fn inputs(&self) -> Seq<(usize, FstValue)> {
        self.inputs@
    }

    /// The terms waiting.
    pub closed spec fn pending(&self) -> Seq<PendingTerm> {
        self.terms@
    }

    /// The batch has reached its most terms, or its most posting bytes.
    pub open spec fn is_full(&self, limits: BatchLimits) -> bool {
        self@.len() >= limits.terms || total_hinted(self.inputs()) >= limits.posting_bytes
    }

    /// The inputs of `next` may join without going over the most posting bytes.
    pub open spec fn room_for(&self, next: Batch, limits: BatchLimits) -> bool {
        total_hinted(self.inputs()) + total_hinted(next.inputs()) <= limits.posting_bytes
    }

    /// A batch with nothing in it.
    pub fn new() -> (batch: Self)
        ensures
            batch.wf(),
            batch@.len() == 0,
            batch.inputs().len() == 0,
    {
        Batch { terms: Vec::new(), term_bytes: Vec::new(), inputs: Vec::new(), posting_bytes: 0 }
    }

    /// Empty the batch, keeping its buffers.
    pub fn clear(&mut self)
        ensures
            final(self).wf(),
            final(self)@.len() == 0,
            final(self).inputs().len() == 0,
    {
        self.terms.clear();
        self.term_bytes.clear();
        self.inputs.clear();
        self.posting_bytes = 0;
    }

    /// Where the inputs of the next term begin.
    pub fn n_inputs(&self) -> (n: usize)
        ensures
            n == self.inputs().len(),
    {
        self.inputs.len()
    }

    /// Take up one input of the term being walked.
    pub fn add_input(&mut self, input: usize, value: FstValue)
        requires
            old(self).wf(),
        ensures
            final(self).wf(),
            final(self)@ == old(self)@,
            final(self).inputs() == old(self).inputs().push((input, value)),
    {
        self.inputs.push((input, value));
        let n: usize = self.inputs.len();
        proof {
            assert(self.inputs@.drop_last() =~= old(self).inputs@);
            lemma_hinted_bounded(self.inputs@);
        }
        if let FstValue::Pfor { postings_length_hint: Some(len), .. } = value {
            self.posting_bytes = self.posting_bytes + len as u128;
        }
        proof {
            assert forall|k: int| 0 <= k < self.terms@.len() implies self.holds(#[trigger] self.terms@[k]) by {
                assert(old(self).holds(old(self).terms@[k]));
            }
            assert forall|k: int| 0 <= k < self.terms@.len() implies #[trigger] self@[k] == old(self)@[k] by {
                assert(old(self).holds(old(self).terms@[k]));
                assert(self.pending_view(self.terms@[k]).1 =~= old(self).pending_view(old(self).terms@[k]).1);
            }
            assert(self@ =~= old(self)@);
        }
    }

    /// Put a term in the batch, with the inputs taken up from `inputs_start` on.
    pub fn push_term(&mut self, term: &[u8], inputs_start: usize)
        requires
            old(self).wf(),
            inputs_start <= old(self).inputs().len(),
        ensures
            final(self).wf(),
            final(self)@ == old(self)@.push((term@, old(self).inputs().skip(inputs_start as int))),
            final(self).inputs() == old(self).inputs(),
    {
        let start: usize = self.term_bytes.len();
        self.term_bytes.extend_from_slice(term);
        let end: usize = self.term_bytes.len();
        assert(self.term_bytes@ =~= old(self).term_bytes@ + term@);
        self.terms.push(PendingTerm { term: start..end, inputs: inputs_start..self.inputs.len() });
        proof {
            let n = old(self).terms@.len() as int;
            assert forall|k: int| 0 <= k < self.terms@.len() implies self.holds(#[trigger] self.terms@[k]) by {
                if k < n {
                    assert(old(self).holds(old(self).terms@[k]));
                }
            }
            assert forall|k: int| 0 <= k < n implies #[trigger] self@[k] == old(self)@[k] by {
                assert(old(self).holds(old(self).terms@[k]));
                assert(self.pending_view(self.terms@[k]).0 =~= old(self).pending_view(old(self).terms@[k]).0);
            }
            assert(self@[n].0 =~= term@);
            assert(self@[n].1 =~= old(self).inputs().skip(inputs_start as int));
            assert(self@ =~= old(self)@.push((term@, old(self).inputs().skip(inputs_start as int))));
        }
    }

    /// Whether the batch has reached its most terms, or its most posting bytes.
    pub fn full(&self, limits: &BatchLimits) -> (r: bool)
        requires
            self.wf(),
        ensures
            r == self.is_full(*limits),
    {
        self.terms.len() >= limits.terms || self.posting_bytes >= limits.posting_bytes as u128
    }

    /// Whether no term waits.
    pub fn is_empty(&self) -> (r: bool)
        ensures
            r == (self@.len() == 0),
    {
        self.terms.len() == 0
    }

    /// Whether the inputs of `next` may join without going over the most posting bytes.
    pub fn has_room(&self, next: &Batch, limits: &BatchLimits) -> (r: bool)
        requires
            self.wf(),
            next.wf(),
        ensures
            r == self.room_for(*next, *limits),
    {
        let n: usize = self.inputs.len();
        let m: usize = next.inputs.len();
        proof {
            lemma_hinted_bounded(self.inputs@);
            lemma_hinted_bounded(next.inputs@);
        }
        self.posting_bytes + next.posting_bytes <= limits.posting_bytes as u128
    }

    /// Take over the one term that waits in `next`, and empty it.
    pub fn take_term(&mut self, next: &mut Batch)
        requires
            old(self).wf(),
            old(next).wf(),
            old(next)@.len() == 1,
            old(next).inputs() == old(next)@[0].1,
        ensures
            final(self).wf(),
            final(self)@ == old(self)@ + old(next)@,
            final(self).inputs() == old(self).inputs() + old(next).inputs(),
            final(next).wf(),
            final(next)@.len() == 0,
            final(next).inputs().len() == 0,
    {
        let inputs_start: usize = self.inputs.len();
        let n: usize = next.inputs.len();
        for k in 0..n
            invariant
                n == next.inputs@.len(),
                *next == *old(next),
                self.wf(),
                self@ == old(self)@,
                self.inputs() == old(self).inputs() + next.inputs@.take(k as int),
        {
            let (input, value) = next.inputs[k];
            self.add_input(input, value);
            assert(next.inputs@.take(k + 1) =~= next.inputs@.take(k as int).push((input, value)));
        }
        assert(next.inputs@.take(n as int) =~= next.inputs@);
        assert(next.holds(next.terms@[0]));
        let term = next.term_of(&next.terms[0]);
        self.push_term(term, inputs_start);
        proof {
            assert(old(next)@[0] == old(next).pending_view(old(next).terms@[0]));
            assert(self.inputs().skip(inputs_start as int) =~= next.inputs@);
            assert(self@ =~= old(self)@ + old(next)@);
        }
        next.clear();
    }

    /// The terms waiting.
    pub fn terms(&self) -> (terms: &Vec<PendingTerm>)
        requires
            self.wf(),
        ensures
            terms@ == self.pending(),
            terms@.len() == self@.len(),
            forall|k: int|
                0 <= k < terms@.len() ==> self.holds(#[trigger] terms@[k]) && self.pending_view(terms@[k])
                    == self@[k],
    {
        &self.terms
    }

    /// The bytes of a term waiting.
    pub fn term_of(&self, pending: &PendingTerm) -> (term: &[u8])
        requires
            self.holds(*pending),
        ensures
            term@ == self.pending_view(*pending).0,
    {
        &self.term_bytes[pending.term.start..pending.term.end]
    }

    /// The inputs of a term waiting.
    pub fn inputs_of(&self, pending: &PendingTerm) -> (inputs: &[(usize, FstValue)])
        requires
            self.holds(*pending),
        ensures
            inputs@ == self.pending_view(*pending).1,
    {
        &self.inputs[pending.inputs.start..pending.inputs.end]
    }
}

} // verus!
