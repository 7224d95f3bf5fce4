//! The order terms stand in: byte by byte, a term before every longer one that it begins.
use vstd::prelude::*;

verus! {

/// `a` comes before `b`: at the first byte in which they differ its byte is smaller, or it ends
/// there.
pub open spec fn term_lt(a: Seq<u8>, b: Seq<u8>) -> bool
    decreases a.len(),
{
    if b.len() == 0 {
        false
    } else if a.len() == 0 {
        true
    } else {
        a[0] < b[0] || (a[0] == b[0] && term_lt(a.drop_first(), b.drop_first()))
    }
}

/// No term comes before itself, and of two terms not each before the other.
pub proof fn term_lt_asymmetric(a: Seq<u8>, b: Seq<u8>)
    ensures
        !(term_lt(a, b) && term_lt(b, a)),
        !term_lt(a, a),
    decreases a.len(),
{
    if a.len() > 0 && b.len() > 0 {
        term_lt_asymmetric(a.drop_first(), b.drop_first());
    } else if a.len() > 0 {
        term_lt_asymmetric(a.drop_first(), a.drop_first());
    }
}

/// A term before a second, which is before a third, comes before the third.
pub proof fn term_lt_transitive(a: Seq<u8>, b: Seq<u8>, c: Seq<u8>)
    requires
        term_lt(a, b),
        term_lt(b, c),
    ensures
        term_lt(a, c),
    decreases a.len(),
{
    if a.len() > 0 && b.len() > 0 && c.len() > 0 && a[0] == b[0] && b[0] == c[0] {
        term_lt_transitive(a.drop_first(), b.drop_first(), c.drop_first());
    }
}

/// Of two different terms one comes before the other.
pub proof fn term_lt_total(a: Seq<u8>, b: Seq<u8>)
    ensures
        a == b || term_lt(a, b) || term_lt(b, a),
    decreases a.len(),
{
    if a.len() == 0 || b.len() == 0 {
        if a.len() == b.len() {
            assert(a =~= b);
        }
    } else if a[0] == b[0] {
        term_lt_total(a.drop_first(), b.drop_first());
        if a.drop_first() == b.drop_first() {
            assert forall|i: int| 0 <= i < a.len() && a.len() == b.len() implies a[i] == b[i] by {
                if i > 0 {
                    assert(a.drop_first()[i - 1] == b.drop_first()[i - 1]);
                }
            }
            assert(a.len() == a.drop_first().len() + 1);
            assert(b.len() == b.drop_first().len() + 1);
            assert(a =~= b);
        }
    }
}

/// A common beginning does not decide the order.
proof fn lemma_common_prefix(a: Seq<u8>, b: Seq<u8>, n: int)
    requires
        0 <= n <= a.len(),
        n <= b.len(),
        forall|i: int| 0 <= i < n ==> a[i] == b[i],
    ensures
        term_lt(a, b) == term_lt(a.skip(n), b.skip(n)),
    decreases n,
{
    if n > 0 {
        assert(a[0] == b[0]);
        lemma_common_prefix(a.drop_first(), b.drop_first(), n - 1);
        assert(a.drop_first().skip(n - 1) =~= a.skip(n));
        assert(b.drop_first().skip(n - 1) =~= b.skip(n));
    } else {
        assert(a.skip(0) =~= a);
        assert(b.skip(0) =~= b);
    }
}

/// Whether `a` comes before `b`.
pub fn term_less(a: &[u8], b: &[u8]) -> (r: bool)
    ensures
        r == term_lt(a@, b@),
{
    let mut i: usize = 0;
    while i < a.len() && i < b.len()
        invariant
            i <= a@.len(),
            i <= b@.len(),
            forall|k: int| 0 <= k < i ==> a@[k] == b@[k],
        decreases a@.len() - i,
    {
        if a[i] != b[i] {
            proof {
                lemma_common_prefix(a@, b@, i as int);
            }
            return a[i] < b[i];
        }
        i = i + 1;
    }
    proof {
        lemma_common_prefix(a@, b@, i as int);
    }
    i < b.len()
}

/// Whether `a` and `b` are the same term.
pub fn same_term(a: &[u8], b: &[u8]) -> (r: bool)
    ensures
        r == (a@ == b@),
{
    if a.len() != b.len() {
        return false;
    }
    for i in 0..a.len()
        invariant
            a@.len() == b@.len(),
            forall|k: int| 0 <= k < i ==> a@[k] == b@[k],
    {
        if a[i] != b[i] {
            return false;
        }
    }
    assert(a@ =~= b@);
    true
}

/// A copy of `term`.
pub fn copy_term(term: &[u8]) -> (copy: Vec<u8>)
    ensures
        copy@ == term@,
{
    let mut copy: Vec<u8> = Vec::new();
    copy.extend_from_slice(term);
    assert(copy@ =~= term@);
    copy
}

} // verus!
