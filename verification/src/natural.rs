//! Arbitrary-precision natural numbers, stored as big-endian bit strings.
//!
//! The numbers that arise when two binary64 values are combined exactly, or
//! when a decimal numeral is read exactly, do not fit in a machine word. This
//! module holds the few exact operations that correct rounding needs.

use vstd::prelude::*;
use vstd::arithmetic::power2::{pow2, lemma_pow2_pos, lemma_pow2_unfold, lemma_pow2_strictly_increases, lemma2_to64};

verus! {

/// The numeric value of one bit.
pub open spec fn bit(b: bool) -> nat {
    if b { 1 } else { 0 }
}

/// The number written by a bit string, most significant bit first.
pub open spec fn bits_value(s: Seq<bool>) -> nat
    decreases s.len(),
{
    if s.len() == 0 {
        0
    } else {
        2 * bits_value(s.drop_last()) + bit(s.last())
    }
}

/// A bit string without a leading zero.
pub open spec fn trimmed(s: Seq<bool>) -> bool {
    s.len() == 0 || s[0]
}

pub proof fn lemma_value_push(s: Seq<bool>, b: bool)
    ensures
        bits_value(s.push(b)) == 2 * bits_value(s) + bit(b),
{
    assert(s.push(b).drop_last() =~= s);
}

pub proof fn lemma_value_single(b: bool)
    ensures
        bits_value(seq![b]) == bit(b),
{
    assert(seq![b] =~= Seq::<bool>::empty().push(b));
    lemma_value_push(Seq::<bool>::empty(), b);
}

pub proof fn lemma_value_below(s: Seq<bool>)
    ensures
        bits_value(s) < pow2(s.len()),
    decreases s.len(),
{
    lemma2_to64();
    if s.len() > 0 {
        lemma_value_below(s.drop_last());
        lemma_pow2_unfold(s.len());
    }
}

pub proof fn lemma_value_at_least(s: Seq<bool>)
    requires
        s.len() > 0,
        s[0],
    ensures
        bits_value(s) >= pow2((s.len() - 1) as nat),
        bits_value(s) > 0,
    decreases s.len(),
{
    lemma2_to64();
    if s.len() == 1 {
        assert(bits_value(s.drop_last()) == 0);
    } else {
        lemma_value_at_least(s.drop_last());
        lemma_pow2_unfold((s.len() - 1) as nat);
    }
    lemma_pow2_pos((s.len() - 1) as nat);
}

pub proof fn lemma_value_concat(a: Seq<bool>, b: Seq<bool>)
    ensures
        bits_value(a + b) == bits_value(a) * pow2(b.len()) + bits_value(b),
    decreases b.len(),
{
    lemma2_to64();
    if b.len() == 0 {
        assert(a + b =~= a);
    } else {
        let b1 = b.drop_last();
        assert((a + b).drop_last() =~= a + b1);
        lemma_value_concat(a, b1);
        lemma_pow2_unfold(b.len());
        let va = bits_value(a) as int;
        let p = pow2(b1.len()) as int;
        assert(2 * (va * p) == va * (2 * p)) by (nonlinear_arith);
    }
}

pub proof fn lemma_value_zero(s: Seq<bool>)
    requires
        forall|i: int| 0 <= i < s.len() ==> !s[i],
    ensures
        bits_value(s) == 0,
    decreases s.len(),
{
    if s.len() > 0 {
        lemma_value_zero(s.drop_last());
    }
}

pub proof fn lemma_value_positive(s: Seq<bool>, i: int)
    requires
        0 <= i < s.len(),
        s[i],
    ensures
        bits_value(s) > 0,
    decreases s.len(),
{
    if i < s.len() - 1 {
        lemma_value_positive(s.drop_last(), i);
    }
}

/// Splitting a bit string after its first `k` bits splits the number into
/// quotient and remainder by a power of two.
pub proof fn lemma_value_split(s: Seq<bool>, k: int)
    requires
        0 <= k <= s.len(),
    ensures
        bits_value(s) == bits_value(s.subrange(0, k)) * pow2((s.len() - k) as nat) + bits_value(
            s.subrange(k, s.len() as int),
        ),
        bits_value(s.subrange(k, s.len() as int)) < pow2((s.len() - k) as nat),
{
    assert(s =~= s.subrange(0, k) + s.subrange(k, s.len() as int));
    lemma_value_concat(s.subrange(0, k), s.subrange(k, s.len() as int));
    lemma_value_below(s.subrange(k, s.len() as int));
}

/// Of two bit strings of one length, the one with a zero where they first
/// differ writes the smaller number.
pub proof fn lemma_first_difference(a: Seq<bool>, b: Seq<bool>, i: int)
    requires
        a.len() == b.len(),
        0 <= i < a.len(),
        forall|k: int| 0 <= k < i ==> a[k] == b[k],
        !a[i],
        b[i],
    ensures
        bits_value(a) < bits_value(b),
{
    let n = a.len() as int;
    lemma_value_split(a, i + 1);
    lemma_value_split(b, i + 1);
    let pa = a.subrange(0, i);
    let pb = b.subrange(0, i);
    assert(pa =~= pb);
    assert(a.subrange(0, i + 1) =~= pa.push(a[i]));
    assert(b.subrange(0, i + 1) =~= pb.push(b[i]));
    lemma_value_push(pa, a[i]);
    lemma_value_push(pb, b[i]);
    let p = bits_value(pa) as int;
    let w = pow2((n - i - 1) as nat) as int;
    assert((2 * p + 1) * w == (2 * p) * w + w) by (nonlinear_arith);
}

proof fn lemma_add_column(o: int, c2: int, x: int, y: int, c: int, p: int, vo: int, va: int, vb: int)
    by (nonlinear_arith)
    requires
        o + 2 * c2 == x + y + c,
        vo + c * p == va + vb,
    ensures
        (o * p + vo) + c2 * (2 * p) == (x * p + va) + (y * p + vb),
{
}

proof fn lemma_sub_column(o: int, b2: int, x: int, y: int, b: int, p: int, vo: int, va: int, vb: int)
    by (nonlinear_arith)
    requires
        o + y + b == x + 2 * b2,
        vo + vb == va + b * p,
    ensures
        (o * p + vo) + (y * p + vb) == (x * p + va) + b2 * (2 * p),
{
}

/// The value of the last `k + 1` bits, from that of the last `k`.
pub proof fn lemma_suffix_step(s: Seq<bool>, k: int)
    requires
        0 <= k < s.len(),
    ensures
        bits_value(s.subrange(s.len() - k - 1, s.len() as int)) == bit(s[s.len() - k - 1]) * pow2(
            k as nat,
        ) + bits_value(s.subrange(s.len() - k, s.len() as int)),
{
    let n = s.len() as int;
    let head = seq![s[n - k - 1]];
    let tail = s.subrange(n - k, n);
    assert(s.subrange(n - k - 1, n) =~= head + tail);
    lemma_value_concat(head, tail);
    lemma_value_single(s[n - k - 1]);
}

/// How one number stands to another.
#[derive(Clone, Copy, Debug, PartialEq, Eq)]
pub enum Relation {
    Below,
    Equal,
    Above,
}

fn zeros(n: usize) -> (r: Vec<bool>)
    ensures
        r@.len() == n,
        forall|i: int| 0 <= i < n ==> !r@[i],
{
    let mut r: Vec<bool> = Vec::new();
    let mut i: usize = 0;
    while i < n
        invariant
            i <= n,
            r@.len() == i,
            forall|k: int| 0 <= k < i ==> !r@[k],
        decreases n - i,
    {
        r.push(false);
        i += 1;
    }
    r
}

fn padded(v: &Vec<bool>, n: usize) -> (r: Vec<bool>)
    requires
        v@.len() <= n,
    ensures
        r@.len() == n,
        bits_value(r@) == bits_value(v@),
{
    let mut r = zeros(n - v.len());
    let ghost z = r@;
    let mut i: usize = 0;
    while i < v.len()
        invariant
            i <= v@.len(),
            r@ == z + v@.subrange(0, i as int),
        decreases v@.len() - i,
    {
        r.push(v[i]);
        i += 1;
        assert(r@ =~= z + v@.subrange(0, i as int));
    }
    proof {
        assert(v@.subrange(0, v@.len() as int) =~= v@);
        lemma_value_concat(z, v@);
        lemma_value_zero(z);
        assert(bits_value(z) * pow2(v@.len()) == 0) by (nonlinear_arith)
            requires
                bits_value(z) == 0,
        ;
    }
    r
}

fn trim(v: Vec<bool>) -> (r: Natural)
    ensures
        r.wf(),
        r@ == bits_value(v@),
{
    let n = v.len();
    let mut f: usize = 0;
    while f < n && !v[f]
        invariant
            f <= n,
            n == v@.len(),
            forall|k: int| 0 <= k < f ==> !v@[k],
        decreases n - f,
    {
        f += 1;
    }
    let mut out: Vec<bool> = Vec::new();
    let mut i: usize = f;
    while i < n
        invariant
            f <= i <= n,
            n == v@.len(),
            out@ == v@.subrange(f as int, i as int),
        decreases n - i,
    {
        out.push(v[i]);
        i += 1;
        assert(out@ =~= v@.subrange(f as int, i as int));
    }
    proof {
        lemma_value_split(v@, f as int);
        lemma_value_zero(v@.subrange(0, f as int));
        assert(bits_value(v@.subrange(0, f as int)) * pow2((n - f) as nat) == 0)
            by (nonlinear_arith)
            requires
                bits_value(v@.subrange(0, f as int)) == 0,
        ;
    }
    Natural { bits: out }
}

/// A natural number of any size.
#[derive(Debug, PartialEq, Eq)]
pub struct Natural {
    pub bits: Vec<bool>,
}

impl View for Natural {
    type V = nat;

    open spec fn view(&self) -> nat {
        bits_value(self.bits@)
    }
}

impl Natural {
    /// The representation is canonical: the bit string has no leading zero.
    pub open spec fn wf(&self) -> bool {
        trimmed(self.bits@)
    }

    pub fn zero() -> (r: Natural)
        ensures
            r.wf(),
            r@ == 0,
    {
        Natural { bits: Vec::new() }
    }

    /// A second copy of the number.
    pub fn duplicate(&self) -> (r: Natural)
        ensures
            r.bits@ == self.bits@,
            r@ == self@,
            r.wf() == self.wf(),
    {
        let mut out: Vec<bool> = Vec::new();
        let mut i: usize = 0;
        while i < self.bits.len()
            invariant
                i <= self.bits@.len(),
                out@ == self.bits@.subrange(0, i as int),
            decreases self.bits@.len() - i,
        {
            out.push(self.bits[i]);
            i += 1;
            assert(out@ =~= self.bits@.subrange(0, i as int));
        }
        assert(self.bits@.subrange(0, self.bits@.len() as int) =~= self.bits@);
        Natural { bits: out }
    }

    pub fn is_zero(&self) -> (r: bool)
        requires
            self.wf(),
        ensures
            r == (self@ == 0),
    {
        proof {
            if self.bits@.len() > 0 {
                lemma_value_at_least(self.bits@);
            }
        }
        self.bits.len() == 0
    }

    pub fn from_u128(x: u128) -> (r: Natural)
        ensures
            r.wf(),
            r@ == x,
        decreases x,
    {
        if x == 0 {
            Natural::zero()
        } else {
            let mut r = Natural::from_u128(x / 2);
            r.push_bit(x % 2 == 1);
            r
        }
    }

    /// Doubles the number and adds one bit.
    pub fn push_bit(&mut self, b: bool)
        requires
            old(self).wf(),
        ensures
            final(self).wf(),
            final(self)@ == 2 * old(self)@ + bit(b),
    {
        if self.bits.len() > 0 || b {
            proof {
                lemma_value_push(self.bits@, b);
            }
            self.bits.push(b);
        }
    }

    /// Multiplies the number by two to the power `k`.
    pub fn shift_left(&mut self, k: usize)
        requires
            old(self).wf(),
        ensures
            final(self).wf(),
            final(self)@ == old(self)@ * pow2(k as nat),
    {
        let ghost start = self@;
        let mut i: usize = 0;
        proof {
            lemma2_to64();
        }
        while i < k
            invariant
                i <= k,
                self.wf(),
                self@ == start * pow2(i as nat),
            decreases k - i,
        {
            proof {
                lemma_pow2_unfold((i + 1) as nat);
                let v = start as int;
                let p = pow2(i as nat) as int;
                assert(2 * (v * p) == v * (2 * p)) by (nonlinear_arith);
            }
            self.push_bit(false);
            i += 1;
        }
    }

    /// Ten times the number, plus a small one.
    pub fn times_ten_plus(&self, d: u8) -> (r: Natural)
        requires
            self.wf(),
        ensures
            r.wf(),
            r@ == 10 * self@ + d,
    {
        let mut eight = self.duplicate();
        eight.shift_left(3);
        let mut two = self.duplicate();
        two.shift_left(1);
        proof {
            lemma2_to64();
            assert(self@ * pow2(3) + self@ * pow2(1) == 10 * self@) by (nonlinear_arith)
                requires
                    pow2(3) == 8,
                    pow2(1) == 2,
            ;
        }
        let ten = eight.add(&two);
        ten.add(&Natural::from_u128(d as u128))
    }

    /// Compares two numbers.
    pub fn relation(&self, other: &Natural) -> (r: Relation)
        requires
            self.wf(),
            other.wf(),
        ensures
            r == Relation::Below <==> self@ < other@,
            r == Relation::Equal <==> self@ == other@,
            r == Relation::Above <==> self@ > other@,
    {
        let n = self.bits.len();
        let m = other.bits.len();
        if n < m {
            proof {
                lemma_value_below(self.bits@);
                lemma_value_at_least(other.bits@);
                if n < m - 1 {
                    lemma_pow2_strictly_increases(n as nat, (m - 1) as nat);
                }
            }
            return Relation::Below;
        }
        if m < n {
            proof {
                lemma_value_below(other.bits@);
                lemma_value_at_least(self.bits@);
                if m < n - 1 {
                    lemma_pow2_strictly_increases(m as nat, (n - 1) as nat);
                }
            }
            return Relation::Above;
        }
        let mut i: usize = 0;
        while i < n
            invariant
                i <= n,
                n == self.bits@.len(),
                n == other.bits@.len(),
                forall|k: int| 0 <= k < i ==> self.bits@[k] == other.bits@[k],
            decreases n - i,
        {
            if self.bits[i] != other.bits[i] {
                if other.bits[i] {
                    proof {
                        lemma_first_difference(self.bits@, other.bits@, i as int);
                    }
                    return Relation::Below;
                } else {
                    proof {
                        lemma_first_difference(other.bits@, self.bits@, i as int);
                    }
                    return Relation::Above;
                }
            }
            i += 1;
        }
        proof {
            assert(self.bits@ =~= other.bits@);
        }
        Relation::Equal
    }

    /// The sum of two numbers.
    pub fn add(&self, other: &Natural) -> (r: Natural)
        ensures
            r.wf(),
            r@ == self@ + other@,
    {
        let n = if self.bits.len() > other.bits.len() {
            self.bits.len()
        } else {
            other.bits.len()
        };
        let a = padded(&self.bits, n);
        let b = padded(&other.bits, n);
        let mut out = zeros(n);
        let mut carry = false;
        let mut k: usize = 0;
        proof {
            lemma2_to64();
        }
        while k < n
            invariant
                k <= n,
                a@.len() == n,
                b@.len() == n,
                out@.len() == n,
                bits_value(out@.subrange(n - k, n as int)) + bit(carry) * pow2(k as nat)
                    == bits_value(a@.subrange(n - k, n as int)) + bits_value(
                    b@.subrange(n - k, n as int),
                ),
            decreases n - k,
        {
            let idx = n - 1 - k;
            let x = a[idx];
            let y = b[idx];
            let ones: u8 = (if x { 1u8 } else { 0u8 }) + (if y { 1u8 } else { 0u8 }) + (if carry { 1u8 } else { 0u8 });
            let o = ones % 2 == 1;
            let c2 = ones >= 2;
            let ghost before = out@;
            out.set(idx, o);
            proof {
                assert(out@.subrange(n - k, n as int) =~= before.subrange(n - k, n as int));
                lemma_suffix_step(out@, k as int);
                lemma_suffix_step(a@, k as int);
                lemma_suffix_step(b@, k as int);
                lemma_pow2_unfold((k + 1) as nat);
                lemma_add_column(
                    bit(o) as int,
                    bit(c2) as int,
                    bit(x) as int,
                    bit(y) as int,
                    bit(carry) as int,
                    pow2(k as nat) as int,
                    bits_value(before.subrange(n - k, n as int)) as int,
                    bits_value(a@.subrange(n - k, n as int)) as int,
                    bits_value(b@.subrange(n - k, n as int)) as int,
                );
            }
            carry = c2;
            k += 1;
        }
        proof {
            assert(out@.subrange(0, n as int) =~= out@);
            assert(a@.subrange(0, n as int) =~= a@);
            assert(b@.subrange(0, n as int) =~= b@);
        }
        if carry {
            let mut full: Vec<bool> = Vec::new();
            full.push(true);
            let mut i: usize = 0;
            while i < n
                invariant
                    i <= n,
                    n == out@.len(),
                    full@ == seq![true] + out@.subrange(0, i as int),
                decreases n - i,
            {
                full.push(out[i]);
                i += 1;
                assert(full@ =~= seq![true] + out@.subrange(0, i as int));
            }
            proof {
                lemma_value_concat(seq![true], out@);
                lemma_value_single(true);
            }
            Natural { bits: full }
        } else {
            trim(out)
        }
    }

    /// The difference of two numbers, the first of which is not the smaller.
    pub fn sub(&self, other: &Natural) -> (r: Natural)
        requires
            self.wf(),
            other.wf(),
            self@ >= other@,
        ensures
            r.wf(),
            r@ == self@ - other@,
    {
        let n = self.bits.len();
        proof {
            if other.bits@.len() > n {
                lemma_value_below(self.bits@);
                lemma_value_at_least(other.bits@);
                if n < other.bits@.len() - 1 {
                    lemma_pow2_strictly_increases(n as nat, (other.bits@.len() - 1) as nat);
                }
            }
        }
        let a = padded(&self.bits, n);
        let b = padded(&other.bits, n);
        let mut out = zeros(n);
        let mut borrow = false;
        let mut k: usize = 0;
        proof {
            lemma2_to64();
        }
        while k < n
            invariant
                k <= n,
                a@.len() == n,
                b@.len() == n,
                out@.len() == n,
                bits_value(out@.subrange(n - k, n as int)) + bits_value(
                    b@.subrange(n - k, n as int),
                ) == bits_value(a@.subrange(n - k, n as int)) + bit(borrow) * pow2(k as nat),
            decreases n - k,
        {
            let idx = n - 1 - k;
            let x = a[idx];
            let y = b[idx];
            let taken: u8 = (if y { 1u8 } else { 0u8 }) + (if borrow { 1u8 } else { 0u8 });
            let have: u8 = if x { 1u8 } else { 0u8 };
            let b2 = have < taken;
            let o = (have + 2 - taken) % 2 == 1;
            let ghost before = out@;
            out.set(idx, o);
            proof {
                assert(out@.subrange(n - k, n as int) =~= before.subrange(n - k, n as int));
                lemma_suffix_step(out@, k as int);
                lemma_suffix_step(a@, k as int);
                lemma_suffix_step(b@, k as int);
                lemma_pow2_unfold((k + 1) as nat);
                lemma_sub_column(
                    bit(o) as int,
                    bit(b2) as int,
                    bit(x) as int,
                    bit(y) as int,
                    bit(borrow) as int,
                    pow2(k as nat) as int,
                    bits_value(before.subrange(n - k, n as int)) as int,
                    bits_value(a@.subrange(n - k, n as int)) as int,
                    bits_value(b@.subrange(n - k, n as int)) as int,
                );
            }
            borrow = b2;
            k += 1;
        }
        proof {
            assert(out@.subrange(0, n as int) =~= out@);
            assert(a@.subrange(0, n as int) =~= a@);
            assert(b@.subrange(0, n as int) =~= b@);
            lemma_value_below(out@);
        }
        trim(out)
    }
}

} // verus!
