//! Rounding an exact ratio to a binary64 magnitude.
//!
//! The exact result of every operation is a ratio of two natural numbers,
//! taken in units of two to the power -1074, the smallest step between
//! binary64 values. `round_ratio` says which magnitude stands for such a
//! ratio; the lemmas say that it is a nearest one, ties going to the even
//! significand; `round_quotient` computes it by long division.

use vstd::prelude::*;
use vstd::arithmetic::div_mod::{
    lemma_div_by_multiple, lemma_div_denominator, lemma_div_is_ordered,
    lemma_div_is_ordered_by_denominator, lemma_fundamental_div_mod,
    lemma_fundamental_div_mod_converse, lemma_mod_pos_bound,
};
use vstd::arithmetic::power2::{
    lemma2_to64, lemma_pow2_adds, lemma_pow2_pos, lemma_pow2_strictly_increases,
    lemma_pow2_unfold, pow2,
};
use crate::binary64::{scaled, HIDDEN_BIT, INFINITY_BITS, SIGNIFICAND_LIMIT};
use crate::natural::{
    bit, bits_value, lemma_suffix_step, lemma_value_positive, lemma_value_push,
    lemma_value_split, lemma_value_zero, Natural, Relation,
};

verus! {

/// The whole number of steps of size two to the power `j` (in the units of
/// `scaled`) that fit in `a / b`.
pub open spec fn steps(a: nat, b: nat, j: nat) -> nat {
    a / (b * pow2(j))
}

/// The finest step size, searched upwards from `j`, on which `a / b` takes
/// fewer than two to the power 53 steps; the search ends where the exponent
/// range does.
pub open spec fn grid(a: nat, b: nat, j: nat) -> nat
    decreases 2046 - j,
{
    if j >= 2046 || steps(a, b, j) < SIGNIFICAND_LIMIT {
        j
    } else {
        grid(a, b, j + 1)
    }
}

/// The magnitude nearest to `a / b` units of two to the power -1074, ties
/// going to the even significand, and infinity where the range ends.
pub open spec fn round_ratio(a: nat, b: nat) -> u64 {
    let j = grid(a, b, 0);
    let d = b * pow2(j);
    let q = a / d;
    let r = a % d;
    let up: nat = if 2 * r > d || (2 * r == d && q % 2 == 1) { 1 } else { 0 };
    let m = j * HIDDEN_BIT + q + up;
    if m >= INFINITY_BITS { INFINITY_BITS } else { m as u64 }
}

proof fn lemma_step_size(b: nat, i: nat, j: nat)
    requires
        b > 0,
        i <= j,
    ensures
        1 <= b * pow2(i) <= b * pow2(j),
{
    lemma_pow2_pos(i);
    if i < j {
        lemma_pow2_strictly_increases(i, j);
    }
    assert(b * pow2(i) <= b * pow2(j)) by (nonlinear_arith)
        requires
            pow2(i) <= pow2(j),
            b > 0,
    ;
    assert(1 <= b * pow2(i)) by (nonlinear_arith)
        requires
            pow2(i) >= 1,
            b >= 1,
    ;
}

/// Coarser steps: fewer of them.
pub proof fn lemma_steps_antitone(a: nat, b: nat, i: nat, j: nat)
    requires
        b > 0,
        i <= j,
    ensures
        steps(a, b, i) >= steps(a, b, j),
{
    lemma_step_size(b, i, j);
    lemma_div_is_ordered_by_denominator(a as int, (b * pow2(i)) as int, (b * pow2(j)) as int);
}

/// Steps twice as large: half as many.
pub proof fn lemma_steps_halve(a: nat, b: nat, j: nat)
    requires
        b > 0,
    ensures
        steps(a, b, j + 1) == steps(a, b, j) / 2,
{
    lemma_step_size(b, j, j);
    lemma_pow2_unfold(j + 1);
    let d = (b * pow2(j)) as int;
    assert(b * pow2(j + 1) == d * 2) by (nonlinear_arith)
        requires
            pow2(j + 1) == 2 * pow2(j),
            d == b * pow2(j),
    ;
    lemma_div_denominator(a as int, d, 2);
}

/// A step size that leaves fewer than two to the power 53 steps, while the
/// next finer one does not, is the one that `grid` finds.
pub proof fn lemma_grid(a: nat, b: nat, j: nat, i: nat)
    requires
        b > 0,
        i <= j <= 2046,
        j < 2046 ==> steps(a, b, j) < SIGNIFICAND_LIMIT,
        j > 0 ==> steps(a, b, (j - 1) as nat) >= SIGNIFICAND_LIMIT,
    ensures
        grid(a, b, i) == j,
    decreases j - i,
{
    if i < j {
        lemma_steps_antitone(a, b, i, (j - 1) as nat);
        lemma_grid(a, b, j, i + 1);
    }
}

proof fn lemma_division_step(p: int, q0: int, r0: int, b: int, x: int, q1: int, r1: int)
    by (nonlinear_arith)
    requires
        p == q0 * b + r0,
        (q1 == 2 * q0 && r1 == 2 * r0 + x) || (q1 == 2 * q0 + 1 && r1 == 2 * r0 + x - b),
    ensures
        2 * p + x == q1 * b + r1,
{
}

/// Quotient and remainder of `a` by `b * w`, from those of its leading part
/// `p` by `b`.
proof fn lemma_quotient(a: int, b: int, w: int, p: int, t: int, q: int, rem: int)
    requires
        a == p * w + t,
        0 <= t < w,
        p == q * b + rem,
        0 <= rem < b,
    ensures
        b * w > 0,
        a / (b * w) == q,
        a % (b * w) == rem * w + t,
{
    assert(a == q * (b * w) + (rem * w + t)) by (nonlinear_arith)
        requires
            a == p * w + t,
            p == q * b + rem,
    ;
    assert(0 <= rem * w + t < b * w) by (nonlinear_arith)
        requires
            0 <= t < w,
            0 <= rem < b,
    ;
    lemma_fundamental_div_mod_converse(a, b * w, q, rem * w + t);
}

/// At least `c` whole steps of size `d` fit in a number that is at least
/// `c * d`.
proof fn lemma_steps_at_least(a: int, d: int, c: int)
    requires
        d > 0,
        c >= 0,
        a >= c * d,
    ensures
        a / d >= c,
{
    lemma_div_is_ordered(c * d, a, d);
    lemma_div_by_multiple(c, d);
}

proof fn lemma_half(rem: int, x: int, t1: int, w1: int, b: int)
    by (nonlinear_arith)
    requires
        0 <= rem,
        0 <= x <= 1,
        0 <= t1 < w1,
        b > 0,
    ensures
        2 * rem + x > b ==> 2 * (rem * (2 * w1) + (x * w1 + t1)) > b * (2 * w1),
        2 * rem + x < b ==> 2 * (rem * (2 * w1) + (x * w1 + t1)) < b * (2 * w1),
        2 * rem + x == b ==> 2 * (rem * (2 * w1) + (x * w1 + t1)) == b * (2 * w1) + 2 * t1,
{
}

/// How far apart two numbers are.
pub open spec fn distance(x: nat, y: nat) -> nat {
    if x >= y { (x - y) as nat } else { (y - x) as nat }
}

/// What `grid` finds: a step size within the exponent range, on which there
/// are fewer than two to the power 53 steps unless the range ends there,
/// and no finer one of which the same holds.
pub proof fn lemma_grid_found(a: nat, b: nat, i: nat)
    requires
        i <= 2046,
    ensures
        i <= grid(a, b, i) <= 2046,
        grid(a, b, i) < 2046 ==> steps(a, b, grid(a, b, i)) < SIGNIFICAND_LIMIT,
        grid(a, b, i) > i ==> steps(a, b, (grid(a, b, i) - 1) as nat) >= SIGNIFICAND_LIMIT,
    decreases 2046 - i,
{
    if !(i >= 2046 || steps(a, b, i) < SIGNIFICAND_LIMIT) {
        lemma_grid_found(a, b, i + 1);
    }
}

/// Every finite magnitude is a significand below two to the power 53 times
/// a power of two, and above the smallest exponent the significand has its
/// leading bit.
pub proof fn lemma_decode(mag: u64) -> (r: (nat, nat))
    requires
        mag < INFINITY_BITS,
    ensures
        scaled(mag) == r.0 * pow2(r.1),
        mag == r.1 * HIDDEN_BIT + r.0,
        r.0 < SIGNIFICAND_LIMIT,
        r.1 <= 2045,
        r.1 > 0 ==> r.0 >= HIDDEN_BIT,
{
    let e = mag / HIDDEN_BIT;
    let f = mag % HIDDEN_BIT;
    if e == 0 {
        lemma2_to64();
        assert(f * pow2(0) == f) by (nonlinear_arith)
            requires
                pow2(0) == 1,
        ;
        (f as nat, 0)
    } else {
        ((f + HIDDEN_BIT) as nat, (e - 1) as nat)
    }
}

/// The magnitude that encodes a significand `q` at exponent `j`, by plain
/// addition: a significand of two to the power 53 carries into the exponent.
pub proof fn lemma_encode(j: nat, q: nat)
    requires
        j <= 2045,
        q <= SIGNIFICAND_LIMIT,
        j > 0 ==> q >= HIDDEN_BIT,
        j * HIDDEN_BIT + q < INFINITY_BITS,
    ensures
        scaled((j * HIDDEN_BIT + q) as u64) == q * pow2(j),
{
    let m = (j * HIDDEN_BIT + q) as u64;
    let e = m / HIDDEN_BIT;
    let f = m % HIDDEN_BIT;
    lemma2_to64();
    if q < HIDDEN_BIT {
        assert(e == 0 && f == q);
        assert(q * pow2(0) == q) by (nonlinear_arith)
            requires
                pow2(0) == 1,
        ;
    } else if q < SIGNIFICAND_LIMIT {
        assert(e == j + 1 && f == q - HIDDEN_BIT);
    } else {
        assert(e == j + 2 && f == 0);
        lemma_pow2_unfold(j + 1);
        assert(HIDDEN_BIT * pow2(j + 1) == q * pow2(j)) by (nonlinear_arith)
            requires
                pow2(j + 1) == 2 * pow2(j),
                q == 2 * HIDDEN_BIT,
        ;
    }
}

/// No finite magnitude lies strictly between two neighbouring steps of the
/// grid on which `a / b` is rounded.
proof fn lemma_no_value_between(a: nat, b: nat, other: u64)
    requires
        b > 0,
        grid(a, b, 0) <= 2045,
        other < INFINITY_BITS,
    ensures
        ({
            let w = pow2(grid(a, b, 0));
            let q = steps(a, b, grid(a, b, 0));
            scaled(other) <= q * w || scaled(other) >= (q + 1) * w
        }),
{
    let j = grid(a, b, 0);
    lemma_grid_found(a, b, 0);
    let w = pow2(j) as int;
    let q = steps(a, b, j) as int;
    lemma_pow2_pos(j);
    let (s, i) = lemma_decode(other);
    let x = scaled(other) as int;
    if i >= j {
        lemma_pow2_adds((i - j) as nat, j);
        let k = s * pow2((i - j) as nat);
        assert(x == k * w) by (nonlinear_arith)
            requires
                x == s * pow2(i),
                pow2(i) == pow2((i - j) as nat) * w,
                k == s * pow2((i - j) as nat),
        ;
        if k <= q {
            assert(k * w <= q * w) by (nonlinear_arith)
                requires
                    k <= q,
                    w > 0,
            ;
        } else {
            assert(k * w >= (q + 1) * w) by (nonlinear_arith)
                requires
                    k >= q + 1,
                    w > 0,
            ;
        }
    } else {
        lemma_steps_halve(a, b, (j - 1) as nat);
        lemma_pow2_unfold(j);
        let finer = pow2((j - 1) as nat) as int;
        if i < j - 1 {
            lemma_pow2_strictly_increases(i, (j - 1) as nat);
        }
        lemma_pow2_pos(i);
        assert(x <= q * w) by (nonlinear_arith)
            requires
                x == s * pow2(i),
                0 <= s < SIGNIFICAND_LIMIT,
                0 < pow2(i) <= finer,
                w == 2 * finer,
                q >= HIDDEN_BIT,
                SIGNIFICAND_LIMIT == 2 * HIDDEN_BIT,
        ;
    }
}

/// Rounding is to nearest, ties to even. Where the rounded magnitude is
/// finite, no finite magnitude is nearer to the exact ratio `a / b` (both
/// in units of two to the power -1074; distances are taken times `b`); and
/// where another value is just as near, the rounded magnitude is the even
/// one.
pub proof fn lemma_round_is_nearest(a: nat, b: nat, other: u64)
    requires
        b > 0,
        round_ratio(a, b) < INFINITY_BITS,
        other < INFINITY_BITS,
    ensures
        distance(scaled(round_ratio(a, b)) * b, a) <= distance(scaled(other) * b, a),
        distance(scaled(round_ratio(a, b)) * b, a) == distance(scaled(other) * b, a) && scaled(
            other,
        ) != scaled(round_ratio(a, b)) ==> round_ratio(a, b) % 2 == 0,
{
    let j = grid(a, b, 0);
    lemma_grid_found(a, b, 0);
    lemma_step_size(b, j, j);
    let w = pow2(j) as int;
    let d = b * w;
    let q = (a as int) / d;
    let r = (a as int) % d;
    lemma_fundamental_div_mod(a as int, d);
    lemma_mod_pos_bound(a as int, d);
    assert(d * q == q * d) by (nonlinear_arith);
    let up: int = if 2 * r > d || (2 * r == d && q % 2 == 1) { 1 } else { 0 };
    if j == 2046 {
        lemma_steps_halve(a, b, 2045);
        assert(false);
    }
    if j > 0 {
        lemma_steps_halve(a, b, (j - 1) as nat);
    }
    assert(q == steps(a, b, j));
    assert(round_ratio(a, b) == j * HIDDEN_BIT + q + up);
    lemma_encode(j, (q + up) as nat);
    let v = scaled(round_ratio(a, b)) as int;
    assert(v * b == q * d + up * d) by (nonlinear_arith)
        requires
            v == (q + up) * w,
            d == b * w,
    ;
    lemma_no_value_between(a, b, other);
    let x = scaled(other) as int;
    if x <= q * w {
        assert(x * b <= q * d) by (nonlinear_arith)
            requires
                x <= q * w,
                d == b * w,
                b > 0,
        ;
    } else {
        assert(x * b >= q * d + d) by (nonlinear_arith)
            requires
                x >= (q + 1) * w,
                d == b * w,
                b > 0,
        ;
    }
    if v != x {
        assert(v * b != x * b) by (nonlinear_arith)
            requires
                v != x,
                b > 0,
        ;
    }
}

/// Rounding changes no value that is a binary64 value already.
pub proof fn lemma_round_exact(mag: u64, b: nat)
    requires
        mag < INFINITY_BITS,
        b > 0,
    ensures
        round_ratio(scaled(mag) * b, b) == mag,
{
    let (s, i) = lemma_decode(mag);
    let a = scaled(mag) * b;
    let w = pow2(i) as int;
    lemma_step_size(b, i, i);
    let d = b * w;
    assert(a == s * d) by (nonlinear_arith)
        requires
            a == (s * w) * b,
            d == b * w,
    ;
    lemma_fundamental_div_mod_converse(a as int, d, s as int, 0);
    assert(steps(a, b, i) == s);
    if i > 0 {
        lemma_steps_halve(a, b, (i - 1) as nat);
    }
    lemma_grid(a, b, i, 0);
}

/// Rounding gives infinity exactly where the ratio is at least half a step
/// beyond the largest finite value: that value is a significand of two to
/// the power 53 less one at exponent 2045.
pub proof fn lemma_round_overflows(a: nat, b: nat)
    requires
        b > 0,
    ensures
        round_ratio(a, b) == INFINITY_BITS <==> 2 * a >= (2 * SIGNIFICAND_LIMIT - 1) * (b * pow2(
            2045,
        )),
{
    let j = grid(a, b, 0);
    lemma_grid_found(a, b, 0);
    lemma_step_size(b, j, j);
    lemma_step_size(b, 2045, 2045);
    let top = (b * pow2(2045)) as int;
    let q_top = (a as int) / top;
    lemma_fundamental_div_mod(a as int, top);
    lemma_mod_pos_bound(a as int, top);
    assert(top * q_top == q_top * top) by (nonlinear_arith);
    assert(q_top == steps(a, b, 2045));
    lemma_steps_halve(a, b, 2044);
    lemma_steps_halve(a, b, 2045);
    let limit = SIGNIFICAND_LIMIT as int;
    if q_top >= limit {
        // the search runs to the end of the range
        if j <= 2045 {
            lemma_steps_antitone(a, b, j, 2045);
        }
        assert(j == 2046);
        assert(q_top * top >= limit * top) by (nonlinear_arith)
            requires
                q_top >= limit,
                top > 0,
        ;
        assert((2 * limit - 1) * top <= 2 * (limit * top)) by (nonlinear_arith)
            requires
                top > 0,
                limit > 0,
        ;
    } else if q_top == limit - 1 {
        lemma_grid(a, b, 2045, 0);
        assert((2 * limit - 1) * top == 2 * (q_top * top) + top) by (nonlinear_arith)
            requires
                q_top == limit - 1,
        ;
    } else {
        assert((q_top + 1) * top <= (limit - 1) * top) by (nonlinear_arith)
            requires
                q_top + 1 <= limit - 1,
                top > 0,
        ;
        assert((q_top + 1) * top == q_top * top + top) by (nonlinear_arith);
        assert((2 * limit - 1) * top == 2 * ((limit - 1) * top) + top) by (nonlinear_arith);
        if j < 2045 {
            lemma_steps_antitone(a, b, j, 2044);
            lemma_steps_antitone(a, b, j, j);
        } else if j == 2046 {
            assert(false);
        }
    }
}

/// Whether any bit from position `from` on is set.
fn any_set(v: &Vec<bool>, from: usize) -> (r: bool)
    requires
        from <= v@.len(),
    ensures
        r == (bits_value(v@.subrange(from as int, v@.len() as int)) > 0),
{
    let n = v.len();
    let mut i: usize = from;
    while i < n
        invariant
            from <= i <= n,
            n == v@.len(),
            forall|k: int| from <= k < i ==> !v@[k],
        decreases n - i,
    {
        if v[i] {
            proof {
                lemma_value_positive(v@.subrange(from as int, n as int), i - from);
            }
            return true;
        }
        i += 1;
    }
    proof {
        lemma_value_zero(v@.subrange(from as int, n as int));
    }
    false
}

/// Rounds the ratio of two natural numbers, taken in units of two to the
/// power -1074, to a binary64 magnitude.
pub fn round_quotient(a: &Natural, b: &Natural) -> (r: u64)
    requires
        a.wf(),
        b.wf(),
        b@ > 0,
    ensures
        r == round_ratio(a@, b@),
        r <= INFINITY_BITS,
{
    let n = a.bits.len();
    let mut rem = Natural::zero();
    let mut q: u64 = 0;
    let mut k: usize = 0;
    proof {
        assert(a.bits@.subrange(0, 0) =~= Seq::<bool>::empty());
    }
    while k < n && q < HIDDEN_BIT
        invariant
            k <= n,
            n == a.bits@.len(),
            rem.wf(),
            b.wf(),
            b@ > 0,
            bits_value(a.bits@.subrange(0, k as int)) == q * b@ + rem@,
            rem@ < b@,
            q < SIGNIFICAND_LIMIT,
        decreases n - k,
    {
        let ghost p = bits_value(a.bits@.subrange(0, k as int));
        let ghost r0 = rem@;
        let ghost q0 = q;
        rem.push_bit(a.bits[k]);
        q = 2 * q;
        match rem.relation(b) {
            Relation::Below => {},
            _ => {
                rem = rem.sub(b);
                q = q + 1;
            },
        }
        proof {
            assert(a.bits@.subrange(0, k + 1) =~= a.bits@.subrange(0, k as int).push(
                a.bits@[k as int],
            ));
            lemma_value_push(a.bits@.subrange(0, k as int), a.bits@[k as int]);
            lemma_division_step(
                p as int,
                q0 as int,
                r0 as int,
                b@ as int,
                bit(a.bits@[k as int]) as int,
                q as int,
                rem@ as int,
            );
        }
        k += 1;
    }
    let j = n - k;
    let ghost lead = bits_value(a.bits@.subrange(0, k as int));
    let ghost tail = bits_value(a.bits@.subrange(k as int, n as int));
    proof {
        lemma_value_split(a.bits@, k as int);
        lemma_quotient(
            a@ as int,
            b@ as int,
            pow2(j as nat) as int,
            lead as int,
            tail as int,
            q as int,
            rem@ as int,
        );
        assert(steps(a@, b@, j as nat) == q);
        if k < n {
            // one bit more of the dividend already gives 2^53 steps
            let w1 = pow2((j - 1) as nat) as int;
            let lead1 = bits_value(a.bits@.subrange(0, k + 1)) as int;
            lemma_value_split(a.bits@, k + 1);
            assert(a.bits@.subrange(0, k + 1) =~= a.bits@.subrange(0, k as int).push(
                a.bits@[k as int],
            ));
            lemma_value_push(a.bits@.subrange(0, k as int), a.bits@[k as int]);
            lemma_step_size(b@, (j - 1) as nat, (j - 1) as nat);
            assert(a@ >= SIGNIFICAND_LIMIT * (b@ * w1)) by (nonlinear_arith)
                requires
                    a@ >= lead1 * w1,
                    lead1 >= 2 * lead,
                    lead >= q * b@,
                    q >= HIDDEN_BIT,
                    w1 > 0,
                    b@ > 0,
                    SIGNIFICAND_LIMIT == 2 * HIDDEN_BIT,
            ;
            lemma_steps_at_least(a@ as int, b@ * w1, SIGNIFICAND_LIMIT as int);
            assert(steps(a@, b@, (j - 1) as nat) >= SIGNIFICAND_LIMIT);
        }
    }
    if j >= 2046 {
        proof {
            lemma_steps_antitone(a@, b@, 2045, (j - 1) as nat);
            lemma_steps_antitone(a@, b@, 2046, j as nat);
            lemma_grid(a@, b@, 2046, 0);
        }
        return INFINITY_BITS;
    }
    proof {
        lemma_grid(a@, b@, j as nat, 0);
        lemma2_to64();
    }
    let up: bool;
    if j == 0 {
        let mut twice = rem;
        twice.push_bit(false);
        up = match twice.relation(b) {
            Relation::Above => true,
            Relation::Equal => q % 2 == 1,
            Relation::Below => false,
        };
        proof {
            assert(tail == 0);
            assert(b@ * pow2(0) == b@) by (nonlinear_arith)
                requires
                    pow2(0) == 1,
            ;
            assert(rem@ * pow2(0) == rem@) by (nonlinear_arith)
                requires
                    pow2(0) == 1,
            ;
        }
    } else {
        let mut next = rem;
        next.push_bit(a.bits[k]);
        let sticky = any_set(&a.bits, k + 1);
        up = match next.relation(b) {
            Relation::Above => true,
            Relation::Equal => sticky || q % 2 == 1,
            Relation::Below => false,
        };
        proof {
            let w1 = pow2((j - 1) as nat) as int;
            let t1 = bits_value(a.bits@.subrange(k + 1, n as int)) as int;
            lemma_suffix_step(a.bits@, j - 1);
            lemma_value_split(a.bits@, k + 1);
            lemma_pow2_unfold(j as nat);
            lemma_half(rem@ as int, bit(a.bits@[k as int]) as int, t1, w1, b@ as int);
        }
    }
    let m = (j as u64) * HIDDEN_BIT + q + (if up { 1 } else { 0 });
    if m >= INFINITY_BITS { INFINITY_BITS } else { m }
}

} // verus!
