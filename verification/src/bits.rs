//! Facts about single bits of 64-bit boards, shared by the move generators.
use vstd::prelude::*;
use crate::utils::bit_set;

verus! {

/// Bit `j` of `x & y`, `x | y`, `x ^ y` and `!x` follows from bit `j` of
/// `x` and `y`, and a number with a set bit is not zero.
pub proof fn lemma_bit_ops(x: u64, y: u64, j: u64)
    requires
        j < 64,
    ensures
        bit_set(x & y, j) <==> (bit_set(x, j) && bit_set(y, j)),
        bit_set(x | y, j) <==> (bit_set(x, j) || bit_set(y, j)),
        bit_set(x ^ y, j) <==> (bit_set(x, j) != bit_set(y, j)),
        bit_set(!x, j) <==> !bit_set(x, j),
        bit_set(x, j) ==> x != 0,
{
    assert({
        &&& (bit_set(x & y, j) <==> (bit_set(x, j) && bit_set(y, j)))
        &&& (bit_set(x | y, j) <==> (bit_set(x, j) || bit_set(y, j)))
        &&& (bit_set(x ^ y, j) <==> (bit_set(x, j) != bit_set(y, j)))
        &&& (bit_set(!x, j) <==> !bit_set(x, j))
        &&& (bit_set(x, j) ==> x != 0)
    }) by (bit_vector)
        requires
            j < 64,
    ;
}

/// The one-bit board `1 << t` holds exactly square `t`, and masking `x` with
/// it tests bit `t` of `x`.
pub proof fn lemma_single_bit(x: u64, t: u64, j: u64)
    requires
        t < 64,
        j < 64,
    ensures
        bit_set(1u64 << t, j) <==> j == t,
        (x & (1u64 << t) != 0) <==> bit_set(x, t),
        ((1u64 << t) & x != 0) <==> bit_set(x, t),
{
    assert({
        &&& (bit_set(1u64 << t, j) <==> j == t)
        &&& ((x & (1u64 << t) != 0) <==> bit_set(x, t))
        &&& (((1u64 << t) & x != 0) <==> bit_set(x, t))
    }) by (bit_vector)
        requires
            t < 64,
            j < 64,
    ;
}

/// Clearing bit `r` of `x` keeps every other bit, and gives a smaller number
/// when bit `r` was set.
pub proof fn lemma_clear_bit(x: u64, r: u64, j: u64)
    requires
        r < 64,
        j < 64,
    ensures
        bit_set(x & !(1u64 << r), j) <==> (bit_set(x, j) && j != r),
        bit_set(x, r) ==> x & !(1u64 << r) < x,
{
    assert({
        &&& (bit_set(x & !(1u64 << r), j) <==> (bit_set(x, j) && j != r))
        &&& (bit_set(x, r) ==> x & !(1u64 << r) < x)
    }) by (bit_vector)
        requires
            r < 64,
            j < 64,
    ;
}

/// Two numbers with the same 64 bits are equal.
pub proof fn lemma_same_bits(x: u64, y: u64)
    requires
        forall|j: u64| j < 64 ==> (#[trigger] bit_set(x, j) <==> bit_set(y, j)),
    ensures
        x == y,
{
    if x != y {
        let z = x ^ y;
        assert(z != 0) by (bit_vector)
            requires
                x != y,
                z == x ^ y,
        ;
        vstd::std_specs::bits::axiom_u64_trailing_zeros(z);
        let j = vstd::std_specs::bits::u64_trailing_zeros(z) as u64;
        assert(bit_set(z, j));
        lemma_bit_ops(x, y, j);
    }
}

/// The squares `k..64` whose bits are set in `x`, lowest first.
pub open spec fn set_bits_from(x: u64, k: int) -> Seq<int>
    decreases 64 - k,
{
    if k >= 64 || k < 0 {
        Seq::empty()
    } else if bit_set(x, k as u64) {
        seq![k].add(set_bits_from(x, k + 1))
    } else {
        set_bits_from(x, k + 1)
    }
}

/// The squares whose bits are set in `x`, lowest first.
pub open spec fn set_bits(x: u64) -> Seq<int> {
    set_bits_from(x, 0)
}

/// Two numbers that agree on bits `k..64` list the same squares from `k` on.
proof fn lemma_set_bits_agree(x: u64, y: u64, k: int)
    requires
        0 <= k,
        forall|j: u64| k <= j < 64 ==> (#[trigger] bit_set(x, j) <==> bit_set(y, j)),
    ensures
        set_bits_from(x, k) == set_bits_from(y, k),
    decreases 64 - k,
{
    if k < 64 {
        lemma_set_bits_agree(x, y, k + 1);
        assert(bit_set(x, k as u64) <==> bit_set(y, k as u64));
    }
}

/// Without set bits below `r`, the list from `k <= r` starts at `r`'s.
proof fn lemma_set_bits_skip(x: u64, k: int, r: int)
    requires
        0 <= k <= r <= 64,
        forall|j: u64| k <= j < r ==> !#[trigger] bit_set(x, j),
    ensures
        set_bits_from(x, k) == set_bits_from(x, r),
    decreases r - k,
{
    if k < r {
        assert(!bit_set(x, k as u64));
        lemma_set_bits_skip(x, k + 1, r);
    }
}

/// The lowest set bit `r` comes first, followed by the squares of `x`
/// with bit `r` cleared.
pub proof fn lemma_set_bits_pop(x: u64, r: u64)
    requires
        r < 64,
        bit_set(x, r),
        forall|j: u64| j < r ==> !#[trigger] bit_set(x, j),
    ensures
        set_bits(x) == seq![r as int].add(set_bits(x & !(1u64 << r))),
{
    let y = x & !(1u64 << r);
    assert forall|j: u64| j < 64 implies #[trigger] bit_set(y, j) == (bit_set(x, j) && j != r) by {
        lemma_clear_bit(x, r, j);
    }
    lemma_set_bits_skip(x, 0, r as int);
    lemma_set_bits_skip(y, 0, r as int + 1);
    lemma_set_bits_agree(x, y, r as int + 1);
}

/// No bit set, no square listed.
pub proof fn lemma_set_bits_zero()
    ensures
        set_bits(0u64) == Seq::<int>::empty(),
{
    assert forall|j: u64| 0 <= j < 64 implies !#[trigger] bit_set(0u64, j) by {
        lemma_bit_ops(0u64, 0u64, j);
        assert(bit_set(0u64, j) ==> 0u64 != 0);
    }
    lemma_set_bits_skip(0u64, 0, 64);
}

/// The squares `k..64` that satisfy `pred`, lowest first.
pub open spec fn squares_where_from(pred: spec_fn(int) -> bool, k: int) -> Seq<int>
    decreases 64 - k,
{
    if k >= 64 || k < 0 {
        Seq::empty()
    } else if pred(k) {
        seq![k].add(squares_where_from(pred, k + 1))
    } else {
        squares_where_from(pred, k + 1)
    }
}

/// The squares that satisfy `pred`, lowest first.
pub open spec fn squares_where(pred: spec_fn(int) -> bool) -> Seq<int> {
    squares_where_from(pred, 0)
}

/// The set squares of a number whose bits are exactly the squares of `pred`.
pub proof fn lemma_set_bits_where(x: u64, pred: spec_fn(int) -> bool, k: int)
    requires
        0 <= k,
        forall|j: int| 0 <= j < 64 ==> (#[trigger] bit_set(x, j as u64) <==> pred(j)),
    ensures
        set_bits_from(x, k) == squares_where_from(pred, k),
    decreases 64 - k,
{
    if k < 64 {
        lemma_set_bits_where(x, pred, k + 1);
        assert(bit_set(x, k as u64) <==> pred(k));
    }
}

/// Predicates that agree on every square list the same squares.
pub proof fn lemma_squares_where_ext(p1: spec_fn(int) -> bool, p2: spec_fn(int) -> bool, k: int)
    requires
        0 <= k,
        forall|j: int| k <= j < 64 ==> #[trigger] p1(j) == p2(j),
    ensures
        squares_where_from(p1, k) == squares_where_from(p2, k),
    decreases 64 - k,
{
    if k < 64 {
        lemma_squares_where_ext(p1, p2, k + 1);
        assert(p1(k) == p2(k));
    }
}

/// The listed squares lie in `k..64`.
pub proof fn lemma_squares_where_range(pred: spec_fn(int) -> bool, k: int)
    requires
        0 <= k,
    ensures
        forall|i: int| 0 <= i < squares_where_from(pred, k).len() ==> k <= #[trigger] squares_where_from(pred, k)[i] < 64,
    decreases 64 - k,
{
    if k < 64 {
        lemma_squares_where_range(pred, k + 1);
        let rest = squares_where_from(pred, k + 1);
        if pred(k) {
            assert forall|i: int| 0 <= i < squares_where_from(pred, k).len() implies k <= #[trigger] squares_where_from(pred, k)[i] < 64 by {
                if i > 0 {
                    assert(squares_where_from(pred, k)[i] == rest[i - 1]);
                }
            }
        }
    }
}

} // verus!
