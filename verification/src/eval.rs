//! The Bezier evaluator: a recursive de Casteljau blend over one coordinate
//! axis, carried out exactly over the integers.
//!
//! The curve parameter t is the rational `num / den`; to stay exact, the
//! result of blending `n` coordinates is the true curve value multiplied by
//! `den^(n-1)`.

use vstd::prelude::*;

verus! {

/// Number of parameter intervals used when sampling one curve segment,
/// giving `RESOLUTION + 1` sample points per segment.
pub const RESOLUTION: usize = 16;

/// Largest number of control points in one group (a cubic segment).
pub const MAX_GROUP_SIZE: usize = 4;

/// Every cached sample coordinate is the exact curve value multiplied by
/// this scale, `RESOLUTION ^ (MAX_GROUP_SIZE - 1)`.
pub const SAMPLE_SCALE: i64 = 4096;

/// Bound on control point coordinates, so that no sample computation can
/// overflow: `SAMPLE_SCALE * COORD_LIMIT` fits comfortably in an `i64`.
pub const COORD_LIMIT: i64 = 1_000_000_000;

/// `b` to the power of `e`.
pub open spec fn pow_int(b: int, e: nat) -> int
    decreases e,
{
    if e == 0 {
        1
    } else {
        b * pow_int(b, (e - 1) as nat)
    }
}

/// The coordinate sequence as mathematical integers.
pub open spec fn to_ints(s: Seq<i64>) -> Seq<int> {
    Seq::new(s.len(), |i: int| s[i] as int)
}

/// Exact de Casteljau blend of the coordinates `s` at parameter `num / den`,
/// scaled by `den^(s.len() - 1)`: one coordinate is its own blend, and a
/// longer sequence blends the two overlapping sub-sequences, weighted by
/// `den - num` and `num`.
pub open spec fn bez(s: Seq<int>, num: int, den: int) -> int
    decreases s.len(),
{
    if s.len() <= 1 {
        s[0]
    } else {
        (den - num) * bez(s.drop_last(), num, den) + num * bez(s.drop_first(), num, den)
    }
}

/// The sample scale is `RESOLUTION ^ (MAX_GROUP_SIZE - 1)`.
pub proof fn lemma_sample_scale()
    ensures
        pow_int(RESOLUTION as int, (MAX_GROUP_SIZE - 1) as nat) == SAMPLE_SCALE,
{
    assert(pow_int(16, 0) == 1);
    assert(pow_int(16, 1) == 16);
    assert(pow_int(16, 2) == 256);
    assert(pow_int(16, 3) == 4096);
}

/// A power with a base of at least one is at least one.
pub proof fn lemma_pow_int_pos(b: int, e: nat)
    requires
        b >= 1,
    ensures
        pow_int(b, e) >= 1,
    decreases e,
{
    if e > 0 {
        lemma_pow_int_pos(b, (e - 1) as nat);
        assert(b * pow_int(b, (e - 1) as nat) >= 1) by (nonlinear_arith)
            requires
                b >= 1,
                pow_int(b, (e - 1) as nat) >= 1,
        ;
    }
}

/// Powers add exponents: `b^(e1 + e2) == b^e1 * b^e2`.
pub proof fn lemma_pow_int_adds(b: int, e1: nat, e2: nat)
    ensures
        pow_int(b, e1 + e2) == pow_int(b, e1) * pow_int(b, e2),
    decreases e1,
{
    if e1 == 0 {
    } else {
        lemma_pow_int_adds(b, (e1 - 1) as nat, e2);
        assert(b * (pow_int(b, (e1 - 1) as nat) * pow_int(b, e2)) == (b * pow_int(
            b,
            (e1 - 1) as nat,
        )) * pow_int(b, e2)) by (nonlinear_arith);
    }
}

/// A power is monotone in its base, for bases of at least one.
pub proof fn lemma_pow_int_base_le(b1: int, b2: int, e: nat)
    requires
        1 <= b1 <= b2,
    ensures
        pow_int(b1, e) <= pow_int(b2, e),
    decreases e,
{
    if e > 0 {
        lemma_pow_int_base_le(b1, b2, (e - 1) as nat);
        lemma_pow_int_pos(b1, (e - 1) as nat);
        assert(b1 * pow_int(b1, (e - 1) as nat) <= b2 * pow_int(b2, (e - 1) as nat))
            by (nonlinear_arith)
            requires
                1 <= b1 <= b2,
                1 <= pow_int(b1, (e - 1) as nat) <= pow_int(b2, (e - 1) as nat),
        ;
    }
}

/// A power with a base of at least one is monotone in its exponent.
pub proof fn lemma_pow_int_exp_le(b: int, e1: nat, e2: nat)
    requires
        b >= 1,
        e1 <= e2,
    ensures
        pow_int(b, e1) <= pow_int(b, e2),
{
    lemma_pow_int_adds(b, e1, (e2 - e1) as nat);
    lemma_pow_int_pos(b, e1);
    lemma_pow_int_pos(b, (e2 - e1) as nat);
    assert(pow_int(b, e1) * 1 <= pow_int(b, e1) * pow_int(b, (e2 - e1) as nat))
        by (nonlinear_arith)
        requires
            pow_int(b, e1) >= 1,
            pow_int(b, (e2 - e1) as nat) >= 1,
    ;
}

/// Blending a single coordinate returns it unchanged, for every parameter.
pub proof fn lemma_bez_single(s: Seq<int>, num: int, den: int)
    requires
        s.len() == 1,
    ensures
        bez(s, num, den) == s[0],
{
}

/// Blending two coordinates is exact linear interpolation: the blend equals
/// `den * s[0] + num * (s[1] - s[0])`, which is `a + t * (b - a)` scaled by
/// `den`.
pub proof fn lemma_bez_pair(s: Seq<int>, num: int, den: int)
    requires
        s.len() == 2,
    ensures
        bez(s, num, den) == den * s[0] + num * (s[1] - s[0]),
{
    assert(s.drop_last().len() == 1);
    assert(s.drop_first().len() == 1);
    assert(bez(s.drop_last(), num, den) == s[0]);
    assert(bez(s.drop_first(), num, den) == s[1]);
    assert(bez(s, num, den) == (den - num) * s[0] + num * s[1]);
    assert((den - num) * s[0] + num * s[1] == den * s[0] + num * (s[1] - s[0]))
        by (nonlinear_arith);
}

/// At parameter zero the blend reproduces the first coordinate, scaled by
/// `den^(s.len() - 1)`.
pub proof fn lemma_bez_first(s: Seq<int>, den: int)
    requires
        s.len() >= 1,
    ensures
        bez(s, 0, den) == pow_int(den, (s.len() - 1) as nat) * s[0],
    decreases s.len(),
{
    if s.len() == 1 {
    } else {
        lemma_bez_first(s.drop_last(), den);
        assert(s.drop_last()[0] == s[0]);
        let p = pow_int(den, (s.len() - 2) as nat);
        assert(bez(s, 0, den) == den * (p * s[0]) + 0 * bez(s.drop_first(), 0, den));
        assert(den * (p * s[0]) == (den * p) * s[0]) by (nonlinear_arith);
        assert(0 * bez(s.drop_first(), 0, den) == 0) by (nonlinear_arith);
    }
}

/// At parameter one the blend reproduces the last coordinate, scaled by
/// `den^(s.len() - 1)`.
pub proof fn lemma_bez_last(s: Seq<int>, den: int)
    requires
        s.len() >= 1,
    ensures
        bez(s, den, den) == pow_int(den, (s.len() - 1) as nat) * s.last(),
    decreases s.len(),
{
    if s.len() == 1 {
    } else {
        lemma_bez_last(s.drop_first(), den);
        assert(s.drop_first().last() == s.last());
        let p = pow_int(den, (s.len() - 2) as nat);
        assert(bez(s, den, den) == (den - den) * bez(s.drop_last(), den, den) + den * (p
            * s.last()));
        assert((den - den) * bez(s.drop_last(), den, den) == 0) by (nonlinear_arith);
        assert(den * (p * s.last()) == (den * p) * s.last()) by (nonlinear_arith);
    }
}

/// The blend of coordinates bounded by `c` is bounded by
/// `den^(s.len() - 1) * c`.
pub proof fn lemma_bez_bound(s: Seq<int>, num: int, den: int, c: int)
    requires
        s.len() >= 1,
        0 <= num <= den,
        1 <= den,
        0 <= c,
        forall|i: int| 0 <= i < s.len() ==> -c <= #[trigger] s[i] <= c,
    ensures
        -(pow_int(den, (s.len() - 1) as nat) * c) <= bez(s, num, den) <= pow_int(
            den,
            (s.len() - 1) as nat,
        ) * c,
    decreases s.len(),
{
    if s.len() == 1 {
        assert(pow_int(den, 0) * c == c);
    } else {
        let sl = s.drop_last();
        let sf = s.drop_first();
        assert(forall|i: int| 0 <= i < sl.len() ==> -c <= #[trigger] sl[i] <= c);
        assert(forall|i: int| 0 <= i < sf.len() ==> -c <= #[trigger] sf[i] <= c);
        lemma_bez_bound(sl, num, den, c);
        lemma_bez_bound(sf, num, den, c);
        let p = pow_int(den, (s.len() - 2) as nat);
        lemma_pow_int_pos(den, (s.len() - 2) as nat);
        assert(-(den * (p * c)) <= (den - num) * bez(sl, num, den) + num * bez(sf, num, den) <= den
            * (p * c)) by (nonlinear_arith)
            requires
                0 <= num <= den,
                1 <= den,
                0 <= c,
                p >= 1,
                -(p * c) <= bez(sl, num, den) <= p * c,
                -(p * c) <= bez(sf, num, den) <= p * c,
        ;
        assert(den * (p * c) == (den * p) * c) by (nonlinear_arith);
    }
}

/// Recursive de Casteljau evaluation of one coordinate axis at the rational
/// parameter `num / den`, exact over the integers: the result is the true
/// curve value multiplied by `den^(points.len() - 1)`.
pub fn evaluate(points: &[i64], num: usize, den: usize) -> (r: i64)
    requires
        1 <= points@.len() <= MAX_GROUP_SIZE,
        1 <= den <= RESOLUTION,
        num <= den,
        forall|i: int| 0 <= i < points@.len() ==> -COORD_LIMIT <= #[trigger] points@[i]
            <= COORD_LIMIT,
    ensures
        r == bez(to_ints(points@), num as int, den as int),
        -(pow_int(den as int, (points@.len() - 1) as nat) * COORD_LIMIT) <= r <= pow_int(
            den as int,
            (points@.len() - 1) as nat,
        ) * COORD_LIMIT,
    decreases points@.len(),
{
    let n = points.len();
    proof {
        lemma_bez_bound(to_ints(points@), num as int, den as int, COORD_LIMIT as int);
    }
    if n == 1 {
        points[0]
    } else {
        let left = vstd::slice::slice_subrange(points, 0, n - 1);
        let right = vstd::slice::slice_subrange(points, 1, n);
        proof {
            assert(to_ints(left@) =~= to_ints(points@).drop_last());
            assert(to_ints(right@) =~= to_ints(points@).drop_first());
        }
        let a = evaluate(left, num, den);
        let b = evaluate(right, num, den);
        proof {
            let p = pow_int(den as int, (points@.len() - 2) as nat);
            lemma_pow_int_pos(den as int, (points@.len() - 2) as nat);
            lemma_pow_int_exp_le(den as int, (points@.len() - 2) as nat, 2);
            lemma_pow_int_base_le(den as int, 16, 2);
            assert(pow_int(16, 0) == 1);
            assert(pow_int(16, 1) == 16);
            assert(pow_int(16, 2) == 256);
            assert(p <= 256);
            assert(p * (COORD_LIMIT as int) <= 256 * (COORD_LIMIT as int)) by (nonlinear_arith)
                requires
                    1 <= p <= 256,
            ;
            assert(-(16 * (256 * (COORD_LIMIT as int))) <= ((den - num) as int) * (a as int) <= 16
                * (256 * (COORD_LIMIT as int))) by (nonlinear_arith)
                requires
                    0 <= (den - num) as int <= 16,
                    -(256 * (COORD_LIMIT as int)) <= a as int <= 256 * (COORD_LIMIT as int),
            ;
            assert(-(16 * (256 * (COORD_LIMIT as int))) <= (num as int) * (b as int) <= 16 * (256
                * (COORD_LIMIT as int))) by (nonlinear_arith)
                requires
                    0 <= num as int <= 16,
                    -(256 * (COORD_LIMIT as int)) <= b as int <= 256 * (COORD_LIMIT as int),
            ;
        }
        (den - num) as i64 * a + (num as i64) * b
    }
}

} // verus!
