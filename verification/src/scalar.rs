use vstd::prelude::*;

verus! {

// Real scalars — weights, fitness, novelty, behavior coordinates — travel
// through the core as the bit patterns of IEEE-754 doubles. The core never
// does arithmetic on them: it compares them, which the encoding supports
// with integer logic alone, and delegates arithmetic to the embedder
// through the `RealArithmetic` trait.

/// Bits of +0.0.
pub const R_ZERO: u64 = 0;

/// Bits of 1.0.
pub const R_ONE: u64 = 0x3FF0_0000_0000_0000;

/// Bits of 2.0.
pub const R_TWO: u64 = 0x4000_0000_0000_0000;

/// Bits of the machine epsilon of a double, 2^-52.
pub const R_EPSILON: u64 = 0x3CB0_0000_0000_0000;

/// Bits of negative infinity.
pub const R_NEG_INFINITY: u64 = 0xFFF0_0000_0000_0000;

/// Bits of positive infinity.
pub const R_INFINITY: u64 = 0x7FF0_0000_0000_0000;

/// The sign bit of a double.
pub const R_SIGN_MASK: u64 = 0x8000_0000_0000_0000;

/// The exponent-and-fraction bits: the magnitude of a double.
pub const R_MAGNITUDE_MASK: u64 = 0x7FFF_FFFF_FFFF_FFFF;

/// A double is a NaN when its exponent is all ones and its fraction is not
/// zero, that is, when its magnitude exceeds the one of infinity.
pub open spec fn r_is_nan(a: u64) -> bool {
    (a & R_MAGNITUDE_MASK) > R_INFINITY
}

/// The number is negative (its sign bit is set; true for -0.0 as well).
pub open spec fn r_is_negative(a: u64) -> bool {
    (a & R_SIGN_MASK) == R_SIGN_MASK
}

/// The number is a zero, of either sign.
pub open spec fn r_is_zero(a: u64) -> bool {
    (a & R_MAGNITUDE_MASK) == 0
}

/// IEEE-754 `<` on doubles: false when either side is NaN; the two zeros
/// are equal; otherwise the sign and the magnitude ordering decide. On a
/// non-negative double the magnitude bits grow with the value, so the
/// comparison is integer comparison of the bit patterns.
pub open spec fn r_lt(a: u64, b: u64) -> bool {
    !r_is_nan(a) && !r_is_nan(b) && if r_is_negative(a) {
        if r_is_negative(b) {
            (b & R_MAGNITUDE_MASK) < (a & R_MAGNITUDE_MASK)
        } else {
            !(r_is_zero(a) && r_is_zero(b))
        }
    } else {
        if r_is_negative(b) {
            false
        } else {
            (a & R_MAGNITUDE_MASK) < (b & R_MAGNITUDE_MASK)
        }
    }
}

/// IEEE-754 `==` on doubles: bitwise equality, except that the two zeros
/// are equal and a NaN equals nothing.
pub open spec fn r_eq(a: u64, b: u64) -> bool {
    !r_is_nan(a) && !r_is_nan(b) && (a == b || (r_is_zero(a) && r_is_zero(b)))
}

/// Whether `a` is a NaN.
pub fn is_nan(a: u64) -> (r: bool)
    ensures
        r == r_is_nan(a),
{
    (a & R_MAGNITUDE_MASK) > R_INFINITY
}

/// IEEE-754 `<` on the doubles whose bits are `a` and `b`.
pub fn lt(a: u64, b: u64) -> (r: bool)
    ensures
        r == r_lt(a, b),
{
    if is_nan(a) || is_nan(b) {
        false
    } else if (a & R_SIGN_MASK) == R_SIGN_MASK {
        if (b & R_SIGN_MASK) == R_SIGN_MASK {
            (b & R_MAGNITUDE_MASK) < (a & R_MAGNITUDE_MASK)
        } else {
            !((a & R_MAGNITUDE_MASK) == 0 && (b & R_MAGNITUDE_MASK) == 0)
        }
    } else {
        if (b & R_SIGN_MASK) == R_SIGN_MASK {
            false
        } else {
            (a & R_MAGNITUDE_MASK) < (b & R_MAGNITUDE_MASK)
        }
    }
}

/// IEEE-754 `==` on the doubles whose bits are `a` and `b`.
pub fn eq(a: u64, b: u64) -> (r: bool)
    ensures
        r == r_eq(a, b),
{
    if is_nan(a) || is_nan(b) {
        false
    } else {
        a == b || ((a & R_MAGNITUDE_MASK) == 0 && (b & R_MAGNITUDE_MASK) == 0)
    }
}

/// The magnitude of the double `a`: its bits with the sign cleared.
pub fn absolute(a: u64) -> (r: u64)
    ensures
        r == (a & R_MAGNITUDE_MASK),
{
    a & R_MAGNITUDE_MASK
}

/// `f64::max(a, 1.0)` on bits: 1.0 when `a` is below one or a NaN,
/// otherwise `a` itself. Used as the normalization divisor floor.
pub fn max_with_one(a: u64) -> (r: u64)
    ensures
        r == if r_lt(a, R_ONE) || r_is_nan(a) {
            R_ONE
        } else {
            a
        },
{
    if lt(a, R_ONE) || is_nan(a) {
        R_ONE
    } else {
        a
    }
}

/// A total order on double bit patterns: sign-magnitude as a signed
/// integer. On non-NaN values it refines the IEEE order (the two zeros
/// tie); NaNs land beyond the infinities of their sign.
pub open spec fn r_total_key(a: u64) -> int {
    if r_is_negative(a) {
        -((a & R_MAGNITUDE_MASK) as int)
    } else {
        (a & R_MAGNITUDE_MASK) as int
    }
}

/// Whether `a` comes no later than `b` in the total bit order.
pub fn total_le(a: u64, b: u64) -> (r: bool)
    ensures
        r == (r_total_key(a) <= r_total_key(b)),
{
    if (a & R_SIGN_MASK) == R_SIGN_MASK {
        if (b & R_SIGN_MASK) == R_SIGN_MASK {
            (b & R_MAGNITUDE_MASK) <= (a & R_MAGNITUDE_MASK)
        } else {
            true
        }
    } else {
        if (b & R_SIGN_MASK) == R_SIGN_MASK {
            (a & R_MAGNITUDE_MASK) == 0 && (b & R_MAGNITUDE_MASK) == 0
        } else {
            (a & R_MAGNITUDE_MASK) <= (b & R_MAGNITUDE_MASK)
        }
    }
}

/// The sequence ascends in the total bit order.
pub open spec fn sorted_bits(s: Seq<u64>) -> bool {
    forall|i: int, j: int| 0 <= i < j < s.len() ==> r_total_key(#[trigger] s[i]) <= r_total_key(
        #[trigger] s[j],
    )
}

/// Inserting anywhere adds one occurrence to the multiset, the same as a
/// push.
proof fn lemma_insert_to_multiset(s: Seq<u64>, pos: int, x: u64)
    requires
        0 <= pos <= s.len(),
    ensures
        s.insert(pos, x).to_multiset() =~= s.to_multiset().insert(x),
{
    broadcast use vstd::seq_lib::group_to_multiset_ensures;

    vstd::seq_lib::lemma_multiset_commutative(s.take(pos).push(x), s.skip(pos));
    vstd::seq_lib::lemma_multiset_commutative(s.take(pos), s.skip(pos));
    assert(s.take(pos) + s.skip(pos) =~= s);
    assert(s.insert(pos, x) =~= s.take(pos).push(x) + s.skip(pos));
    assert(s.take(pos).push(x).to_multiset() =~= s.take(pos).to_multiset().insert(x));
}

/// The values sorted ascending in the total bit order: an insertion sort.
pub fn sort_bits(v: &Vec<u64>) -> (r: Vec<u64>)
    ensures
        r@.len() == v@.len(),
        sorted_bits(r@),
        r@.to_multiset() == v@.to_multiset(),
{
    broadcast use vstd::seq_lib::group_to_multiset_ensures;

    let mut out: Vec<u64> = Vec::new();
    let mut i: usize = 0;
    proof {
        assert(v@.take(0) =~= Seq::<u64>::empty());
        assert(out@.to_multiset() =~= v@.take(0).to_multiset());
    }
    while i < v.len()
        invariant
            i <= v@.len(),
            out@.len() == i,
            sorted_bits(out@),
            out@.to_multiset() == v@.take(i as int).to_multiset(),
        decreases v@.len() - i,
    {
        let x = v[i];
        let mut pos: usize = 0;
        while pos < out.len()
            invariant_except_break
                pos <= out@.len(),
                forall|k: int| 0 <= k < pos ==> r_total_key(#[trigger] out@[k]) <= r_total_key(x),
            ensures
                pos <= out@.len(),
                forall|k: int| 0 <= k < pos ==> r_total_key(#[trigger] out@[k]) <= r_total_key(x),
                pos < out@.len() ==> r_total_key(x) < r_total_key(out@[pos as int]),
            decreases out@.len() - pos,
        {
            if !total_le(out[pos], x) {
                break ;
            }
            pos = pos + 1;
        }
        let ghost before = out@;
        out.insert(pos, x);
        proof {
            broadcast use vstd::seq_lib::group_to_multiset_ensures;

            before.insert_ensures(pos as int, x);
            assert forall|a: int, b: int| 0 <= a < b < out@.len() implies r_total_key(
                #[trigger] out@[a],
            ) <= r_total_key(#[trigger] out@[b]) by {
                let va = if a < pos {
                    before[a]
                } else if a == pos {
                    x
                } else {
                    before[a - 1]
                };
                assert(out@[a] == va);
                let vb = if b < pos {
                    before[b]
                } else if b == pos {
                    x
                } else {
                    before[b - 1]
                };
                assert(out@[b] == vb);
                if a == pos && b > pos {
                    assert(pos < before.len());
                    assert(r_total_key(x) <= r_total_key(before[pos as int]));
                }
            }
            lemma_insert_to_multiset(before, pos as int, x);
            assert(v@.take(i + 1) =~= v@.take(i as int).push(x));
            assert(v@.take(i as int).push(x).to_multiset() =~= v@.take(i as int).to_multiset().insert(
                x,
            ));
            assert(out@.to_multiset() == v@.take(i + 1).to_multiset());
        }
        i = i + 1;
    }
    proof {
        assert(v@.take(v@.len() as int) =~= v@);
    }
    out
}

/// The position of the first maximum of the first `limit` values under
/// IEEE `<`: later values replace the running best only when strictly
/// greater.
pub fn argmax_bits(values: &Vec<u64>, limit: usize) -> (r: usize)
    requires
        1 <= limit <= values@.len(),
    ensures
        r < limit,
        forall|j: int| 0 <= j < limit ==> !r_lt(values@[r as int], #[trigger] values@[j]),
{
    let mut best: usize = 0;
    let mut t: usize = 1;
    while t < limit
        invariant
            1 <= limit <= values@.len(),
            best < t <= limit,
            forall|j: int| 0 <= j < t ==> !r_lt(values@[best as int], #[trigger] values@[j]),
        decreases limit - t,
    {
        if lt(values[best], values[t]) {
            best = t;
        }
        t = t + 1;
    }
    best
}

/// Constant facts the population layer leans on: zero is a number equal
/// to itself, and negative infinity is a number too.
pub proof fn lemma_zero_not_nan()
    ensures
        !r_is_nan(R_ZERO),
        r_eq(R_ZERO, R_ZERO),
        !r_is_nan(R_NEG_INFINITY),
{
    assert((0u64 & 0x7FFF_FFFF_FFFF_FFFFu64) == 0u64) by (bit_vector);
    assert((0xFFF0_0000_0000_0000u64 & 0x7FFF_FFFF_FFFF_FFFFu64) == 0x7FF0_0000_0000_0000u64)
        by (bit_vector);
}

/// Arithmetic on real scalars, supplied by the embedder. The verified core
/// hands bit patterns of IEEE-754 doubles to these methods and takes the
/// results as opaque: every contract of the core holds whatever values an
/// implementation returns.
pub trait RealArithmetic {
    /// The sum `a + b`.
    fn add(&self, a: u64, b: u64) -> u64;

    /// The difference `a - b`.
    fn sub(&self, a: u64, b: u64) -> u64;

    /// The product `a * b`.
    fn mul(&self, a: u64, b: u64) -> u64;

    /// The quotient `a / b`.
    fn div(&self, a: u64, b: u64) -> u64;

    /// `a` rounded to the nearest integer, clamped into `usize`.
    fn round_to_usize(&self, a: u64) -> usize;

    /// The double with the value of `n`.
    fn from_usize(&self, n: usize) -> u64;

    /// The double with the value of `n`.
    fn from_u128(&self, n: u128) -> u64;

    /// The Euclidean distance between the points `a` and `b`.
    fn distance(&self, a: &Vec<u64>, b: &Vec<u64>) -> u64;
}

} // verus!
