//! Cost arithmetic on bit patterns.
//!
//! A cost or a gain is a single-precision number, held here as the 32 bits of its IEEE 754
//! encoding. The arithmetic itself (a logarithm, an addition, a subtraction) is supplied by the
//! caller as one function from [`CostOp`] to bits; everything that is decided from the results,
//! their order and their sign, is decided on the bits.
use std::cmp::Ordering;
use vstd::prelude::*;

verus! {

/// One arithmetic operation on costs.
pub enum CostOp {
    /// `deg * log2(max(size / (deg + 1), 1))`, for a degree above zero.
    TermCost { deg: u32, size: u32 },
    /// The sum of two numbers.
    Add(u32, u32),
    /// The first number less the second.
    Sub(u32, u32),
}

/// The bits of zero.
pub const ZERO: u32 = 0;

/// The lowest bit pattern with the sign bit set, which is that of negative zero.
pub const SIGN: u32 = 0x8000_0000;

/// The bits of negative infinity. Above it are only the negative not-a-number patterns.
pub const NEG_INFINITY: u32 = 0xff80_0000;

/// `ops` can be asked for any operation, and has one answer to each.
pub open spec fn is_arithmetic<F: Fn(CostOp) -> u32>(ops: F) -> bool {
    &&& forall|op: CostOp| #[trigger] ops.requires((op,))
    &&& forall|op: CostOp, a: u32, b: u32| #[trigger]
        ops.ensures((op,), a) && #[trigger] ops.ensures((op,), b) ==> a == b
}

/// What `ops` answers to `op`.
pub open spec fn eval<F: Fn(CostOp) -> u32>(ops: F, op: CostOp) -> u32 {
    choose|r: u32| ops.ensures((op,), r)
}

/// The sum of two numbers, by `ops`.
pub open spec fn plus<F: Fn(CostOp) -> u32>(ops: F, a: u32, b: u32) -> u32 {
    eval(ops, CostOp::Add(a, b))
}

/// The difference of two numbers, by `ops`.
pub open spec fn minus<F: Fn(CostOp) -> u32>(ops: F, a: u32, b: u32) -> u32 {
    eval(ops, CostOp::Sub(a, b))
}

/// What a term carried by `deg` of a half's `size` documents contributes to that half's cost.
pub open spec fn cost_of_term<F: Fn(CostOp) -> u32>(ops: F, deg: u32, size: u32) -> u32 {
    if deg == 0 {
        ZERO
    } else {
        eval(ops, CostOp::TermCost { deg, size })
    }
}

/// Where a number stands in the total order of all bit patterns: negative ones (the larger the
/// pattern the lower) below positive ones, negative zero below zero.
pub open spec fn order_key(bits: u32) -> int {
    if bits < SIGN {
        SIGN + bits
    } else {
        0xffff_ffff - bits
    }
}

/// The number is at most zero. Not a number is not.
pub open spec fn not_positive(bits: u32) -> bool {
    bits == ZERO || SIGN <= bits <= NEG_INFINITY
}

/// [`order_key`], as an integer of the same width.
pub fn total_order_key(bits: u32) -> (key: u32)
    ensures
        key == order_key(bits),
{
    if bits < SIGN {
        SIGN + bits
    } else {
        0xffff_ffff - bits
    }
}

/// Whether the number is at most zero.
pub fn at_most_zero(bits: u32) -> (r: bool)
    ensures
        r == not_positive(bits),
{
    bits == ZERO || (SIGN <= bits && bits <= NEG_INFINITY)
}

/// What a term carried by `deg` of a half's `size` documents contributes to that half's cost.
/// Zero when nothing carries it, which is also what keeps the logarithm in range.
pub fn term_cost<F: Fn(CostOp) -> u32>(ops: &F, deg: u32, size: u32) -> (cost: u32)
    requires
        is_arithmetic(*ops),
    ensures
        cost == cost_of_term(*ops, deg, size),
{
    if deg == 0 {
        ZERO
    } else {
        ops(CostOp::TermCost { deg, size })
    }
}

/// `a` comes no later than `b` among ranked documents: highest gain first, ties by position.
pub open spec fn ranks_before(a: (u32, u32), b: (u32, u32)) -> bool {
    ||| order_key(a.0) > order_key(b.0)
    ||| order_key(a.0) == order_key(b.0) && a.1 <= b.1
}

/// Compare two `(gain, position)` pairs: highest gain first, ties by position.
pub fn by_gain(a: &(u32, u32), b: &(u32, u32)) -> (r: Ordering)
    ensures
        (r is Less) == (ranks_before(*a, *b) && *a != *b),
        (r is Equal) == (*a == *b),
        (r is Greater) == (ranks_before(*b, *a) && *a != *b),
{
    let ka: u32 = total_order_key(a.0);
    let kb: u32 = total_order_key(b.0);
    if ka > kb {
        Ordering::Less
    } else if ka < kb {
        Ordering::Greater
    } else if a.1 < b.1 {
        Ordering::Less
    } else if a.1 > b.1 {
        Ordering::Greater
    } else {
        Ordering::Equal
    }
}

/// Ranking is a total order: any two pairs are comparable, and only equal ones in both directions.
pub proof fn ranks_before_is_total()
    ensures
        vstd::relations::total_ordering(|a: (u32, u32), b: (u32, u32)| ranks_before(a, b)),
{
}

} // verus!
