//! Natural numbers of any size.
//!
//! Cycle positions are exact fractions, and nesting multiplies their denominators; fixed-width
//! integers would put a limit on how deep a pattern may nest.

use vstd::prelude::*;

verus! {

/// The base in which the limbs count.
pub const BASE: u64 = 0x1_0000_0000;

/// `BASE` to the power `n`.
pub open spec fn base_pow(n: nat) -> nat
    decreases n,
{
    if n == 0 {
        1
    } else {
        BASE as nat * base_pow((n - 1) as nat)
    }
}

/// The number that a sequence of limbs stands for, least significant limb first.
pub open spec fn limbs_value(s: Seq<u32>) -> nat
    decreases s.len(),
{
    if s.len() == 0 {
        0
    } else {
        limbs_value(s.drop_last()) + s.last() as nat * base_pow((s.len() - 1) as nat)
    }
}

/// A natural number of any size.
#[derive(Debug)]
pub struct Nat {
    /// Limbs in base 2^32, least significant first; high zero limbs are allowed.
    pub limbs: Vec<u32>,
}

impl View for Nat {
    type V = nat;

    open spec fn view(&self) -> nat {
        limbs_value(self.limbs@)
    }
}

proof fn lemma_base_pow_positive(n: nat)
    ensures
        base_pow(n) > 0,
    decreases n,
{
    if n > 0 {
        lemma_base_pow_positive((n - 1) as nat);
        assert(BASE as nat * base_pow((n - 1) as nat) > 0) by (nonlinear_arith)
            requires
                base_pow((n - 1) as nat) > 0,
        ;
    }
}

proof fn lemma_base_pow_add(a: nat, b: nat)
    ensures
        base_pow(a + b) == base_pow(a) * base_pow(b),
    decreases a,
{
    if a == 0 {
        assert(1 * base_pow(b) == base_pow(b)) by (nonlinear_arith);
    } else {
        lemma_base_pow_add((a - 1) as nat, b);
        assert((a + b - 1) as nat == (a - 1) as nat + b);
        let x = BASE as nat;
        let y = base_pow((a - 1) as nat);
        let z = base_pow(b);
        assert(x * (y * z) == (x * y) * z) by (nonlinear_arith);
    }
}

proof fn lemma_value_push(s: Seq<u32>, d: u32)
    ensures
        limbs_value(s.push(d)) == limbs_value(s) + d as nat * base_pow(s.len()),
{
    assert(s.push(d).drop_last() =~= s);
}

proof fn lemma_value_take(s: Seq<u32>, i: int)
    requires
        0 <= i < s.len(),
    ensures
        limbs_value(s.take(i + 1)) == limbs_value(s.take(i)) + s[i] as nat * base_pow(i as nat),
{
    assert(s.take(i + 1) =~= s.take(i).push(s[i]));
    lemma_value_push(s.take(i), s[i]);
}

proof fn lemma_value_bound(s: Seq<u32>)
    ensures
        limbs_value(s) < base_pow(s.len()),
    decreases s.len(),
{
    if s.len() > 0 {
        lemma_value_bound(s.drop_last());
        let p = base_pow((s.len() - 1) as nat);
        let d = s.last() as nat;
        let v = limbs_value(s.drop_last());
        assert(v + d * p < BASE as nat * p) by (nonlinear_arith)
            requires
                v < p,
                d <= BASE - 1,
        ;
    }
}

/// Limbs shifted up by `k` places.
proof fn lemma_value_shift(zeros: Seq<u32>, s: Seq<u32>)
    requires
        forall|i: int| 0 <= i < zeros.len() ==> zeros[i] == 0,
    ensures
        limbs_value(zeros + s) == limbs_value(s) * base_pow(zeros.len()),
    decreases zeros.len() + s.len(),
{
    if s.len() > 0 {
        lemma_value_shift(zeros, s.drop_last());
        assert((zeros + s).drop_last() =~= zeros + s.drop_last());
        lemma_base_pow_add((s.len() - 1) as nat, zeros.len());
        let v = limbs_value(s.drop_last());
        let d = s.last() as nat;
        let p = base_pow((s.len() - 1) as nat);
        let q = base_pow(zeros.len());
        assert(v * q + d * (p * q) == (v + d * p) * q) by (nonlinear_arith);
        assert((zeros.len() + s.len() - 1) as nat == (s.len() - 1) as nat + zeros.len());
    } else {
        assert(zeros + s =~= zeros);
        lemma_value_zeros(zeros);
        assert(0 * base_pow(zeros.len()) == 0) by (nonlinear_arith);
    }
}

proof fn lemma_value_zeros(zeros: Seq<u32>)
    requires
        forall|i: int| 0 <= i < zeros.len() ==> zeros[i] == 0,
    ensures
        limbs_value(zeros) == 0,
    decreases zeros.len(),
{
    if zeros.len() > 0 {
        lemma_value_zeros(zeros.drop_last());
        assert(0 * base_pow((zeros.len() - 1) as nat) == 0) by (nonlinear_arith);
    }
}

/// The number that the limbs stand for, without zeros at the top.
fn settled(limbs: Vec<u32>) -> (r: Nat)
    ensures
        r@ == limbs_value(limbs@),
{
    let mut limbs = limbs;
    let ghost goal = limbs_value(limbs@);
    while limbs.len() > 0 && limbs[limbs.len() - 1] == 0
        invariant
            limbs_value(limbs@) == goal,
        decreases limbs@.len(),
    {
        proof {
            let t = limbs@.drop_last();
            assert(t.push(0) =~= limbs@);
            lemma_value_push(t, 0);
            assert(0 * base_pow(t.len()) == 0) by (nonlinear_arith);
        }
        limbs.pop();
    }
    Nat { limbs }
}

impl Nat {
    pub fn zero() -> (r: Nat)
        ensures
            r@ == 0,
    {
        Nat { limbs: Vec::new() }
    }

    pub fn from_u64(n: u64) -> (r: Nat)
        ensures
            r@ == n,
    {
        let lo = (n % BASE) as u32;
        let hi = (n / BASE) as u32;
        let mut limbs: Vec<u32> = Vec::new();
        proof {
            lemma_value_push(limbs@, lo);
            lemma_value_push(limbs@.push(lo), hi);
            assert(base_pow(0) == 1);
            assert(base_pow(1) == BASE as nat * base_pow(0));
            assert(limbs_value(limbs@) == 0);
            assert(lo as nat * base_pow(0) == lo) by (nonlinear_arith)
                requires
                    base_pow(0) == 1,
            ;
            assert(hi as nat * base_pow(1) == hi as nat * BASE as nat) by (nonlinear_arith)
                requires
                    base_pow(1) == BASE as nat * base_pow(0),
                    base_pow(0) == 1,
            ;
        }
        limbs.push(lo);
        limbs.push(hi);
        settled(limbs)
    }

    pub fn from_u128(n: u128) -> (r: Nat)
        ensures
            r@ == n,
    {
        let half: u128 = 0x1_0000_0000_0000_0000;
        let lo = Nat::from_u64((n % half) as u64);
        let hi = Nat::from_u64((n / half) as u64);
        let shift = Nat::from_u64(0x1_0000_0000);
        proof {
            let h = hi@;
            assert(h * 0x1_0000_0000 * 0x1_0000_0000 == 0x1_0000_0000_0000_0000 * h)
                by (nonlinear_arith);
        }
        hi.times(&shift).times(&shift).plus(&lo)
    }

    pub fn duplicate(&self) -> (r: Nat)
        ensures
            r@ == self@,
    {
        let mut limbs: Vec<u32> = Vec::new();
        let mut i: usize = 0;
        while i < self.limbs.len()
            invariant
                i <= self.limbs@.len(),
                limbs@ == self.limbs@.take(i as int),
            decreases self.limbs@.len() - i,
        {
            limbs.push(self.limbs[i]);
            i += 1;
        }
        assert(limbs@ =~= self.limbs@);
        settled(limbs)
    }

    fn limb(&self, i: usize) -> (r: u32)
        ensures
            r == (if i < self.limbs@.len() {
                self.limbs@[i as int]
            } else {
                0
            }),
    {
        if i < self.limbs.len() {
            self.limbs[i]
        } else {
            0
        }
    }

    /// The value of the lowest `i` limbs.
    spec fn low(self, i: nat) -> nat {
        if i <= self.limbs@.len() {
            limbs_value(self.limbs@.take(i as int))
        } else {
            limbs_value(self.limbs@)
        }
    }

    spec fn limb_at(self, i: nat) -> nat {
        if i < self.limbs@.len() {
            self.limbs@[i as int] as nat
        } else {
            0
        }
    }

    proof fn lemma_low_step(self, i: nat)
        ensures
            self.low(i + 1) == self.low(i) + self.limb_at(i) * base_pow(i),
    {
        if i < self.limbs@.len() {
            lemma_value_take(self.limbs@, i as int);
        } else {
            assert(self.limbs@.take(self.limbs@.len() as int) =~= self.limbs@);
            assert(0 * base_pow(i) == 0) by (nonlinear_arith);
        }
    }

    proof fn lemma_low_bound(self, i: nat)
        ensures
            self.low(i) < base_pow(i),
        decreases i,
    {
        if i == 0 {
            assert(self.limbs@.take(0) =~= Seq::empty());
        } else {
            self.lemma_low_bound((i - 1) as nat);
            self.lemma_low_step((i - 1) as nat);
            let p = base_pow((i - 1) as nat);
            let v = self.low((i - 1) as nat);
            let d = self.limb_at((i - 1) as nat);
            assert(v + d * p < BASE as nat * p) by (nonlinear_arith)
                requires
                    v < p,
                    d <= BASE - 1,
            ;
        }
    }

    proof fn lemma_low_all(self, i: nat)
        requires
            i >= self.limbs@.len(),
        ensures
            self.low(i) == self@,
    {
        assert(self.limbs@.take(self.limbs@.len() as int) =~= self.limbs@);
    }

    pub fn plus(&self, other: &Nat) -> (r: Nat)
        ensures
            r@ == self@ + other@,
    {
        let n: usize = if self.limbs.len() > other.limbs.len() {
            self.limbs.len()
        } else {
            other.limbs.len()
        };
        let mut limbs: Vec<u32> = Vec::new();
        let mut carry: u64 = 0;
        let mut i: usize = 0;
        proof {
            assert(self.limbs@.take(0) =~= Seq::empty());
            assert(other.limbs@.take(0) =~= Seq::empty());
            assert(0 * base_pow(0) == 0) by (nonlinear_arith);
        }
        while i < n
            invariant
                i <= n,
                n >= self.limbs@.len(),
                n >= other.limbs@.len(),
                carry <= 1,
                limbs@.len() == i,
                limbs_value(limbs@) + carry * base_pow(i as nat) == self.low(i as nat) + other.low(
                    i as nat,
                ),
            decreases n - i,
        {
            let a = self.limb(i);
            let b = other.limb(i);
            let t: u64 = a as u64 + b as u64 + carry;
            let d = (t % BASE) as u32;
            let c: u64 = t / BASE;
            proof {
                self.lemma_low_step(i as nat);
                other.lemma_low_step(i as nat);
                lemma_value_push(limbs@, d);
                let p = base_pow(i as nat);
                assert(base_pow((i + 1) as nat) == BASE as nat * p);
                assert(d * p + c * (BASE * p) == a * p + b * p + carry * p) by (nonlinear_arith)
                    requires
                        d + c * BASE == a + b + carry,
                ;
            }
            limbs.push(d);
            carry = c;
            i += 1;
        }
        proof {
            self.lemma_low_all(n as nat);
            other.lemma_low_all(n as nat);
            lemma_value_push(limbs@, carry as u32);
        }
        limbs.push(carry as u32);
        settled(limbs)
    }

    /// `self - other`, where that is no less than zero.
    pub fn minus(&self, other: &Nat) -> (r: Nat)
        requires
            self@ >= other@,
        ensures
            r@ == self@ - other@,
    {
        let n: usize = if self.limbs.len() > other.limbs.len() {
            self.limbs.len()
        } else {
            other.limbs.len()
        };
        let mut limbs: Vec<u32> = Vec::new();
        let mut borrow: u64 = 0;
        let mut i: usize = 0;
        proof {
            assert(self.limbs@.take(0) =~= Seq::empty());
            assert(other.limbs@.take(0) =~= Seq::empty());
            assert(0 * base_pow(0) == 0) by (nonlinear_arith);
        }
        while i < n
            invariant
                i <= n,
                n >= self.limbs@.len(),
                n >= other.limbs@.len(),
                borrow <= 1,
                limbs@.len() == i,
                limbs_value(limbs@) + other.low(i as nat) == self.low(i as nat) + borrow * base_pow(
                    i as nat,
                ),
            decreases n - i,
        {
            let a = self.limb(i);
            let b = other.limb(i);
            let t: u64 = a as u64 + BASE - b as u64 - borrow;
            let d = (t % BASE) as u32;
            let c: u64 = 1 - t / BASE;
            proof {
                self.lemma_low_step(i as nat);
                other.lemma_low_step(i as nat);
                lemma_value_push(limbs@, d);
                let p = base_pow(i as nat);
                assert(base_pow((i + 1) as nat) == BASE as nat * p);
                assert(d * p + b * p + borrow * p == a * p + c * (BASE * p)) by (nonlinear_arith)
                    requires
                        d + b + borrow == a + c * BASE,
                ;
            }
            limbs.push(d);
            borrow = c;
            i += 1;
        }
        proof {
            self.lemma_low_all(n as nat);
            other.lemma_low_all(n as nat);
            lemma_value_bound(limbs@);
            assert(borrow == 0) by {
                if borrow == 1 {
                    assert(1 * base_pow(n as nat) == base_pow(n as nat)) by (nonlinear_arith);
                }
            }
            assert(0 * base_pow(n as nat) == 0) by (nonlinear_arith);
        }
        settled(limbs)
    }

    /// `self * k`.
    pub fn times_small(&self, k: u32) -> (r: Nat)
        ensures
            r@ == self@ * k,
    {
        let mut limbs: Vec<u32> = Vec::new();
        let mut carry: u64 = 0;
        let mut i: usize = 0;
        proof {
            assert(self.limbs@.take(0) =~= Seq::empty());
            assert(0 * base_pow(0) == 0) by (nonlinear_arith);
            assert(0 * k == 0) by (nonlinear_arith);
        }
        while i < self.limbs.len()
            invariant
                i <= self.limbs@.len(),
                carry < BASE,
                limbs@.len() == i,
                limbs_value(limbs@) + carry * base_pow(i as nat) == limbs_value(
                    self.limbs@.take(i as int),
                ) * k,
            decreases self.limbs@.len() - i,
        {
            let a = self.limbs[i];
            assert(a as u64 * k as u64 <= 0xffff_ffffu64 * 0xffff_ffffu64) by (nonlinear_arith)
                requires
                    a <= 0xffff_ffff,
                    k <= 0xffff_ffff,
            ;
            let t: u64 = a as u64 * k as u64 + carry;
            let d = (t % BASE) as u32;
            let c: u64 = t / BASE;
            proof {
                lemma_value_take(self.limbs@, i as int);
                lemma_value_push(limbs@, d);
                let p = base_pow(i as nat);
                let low = limbs_value(self.limbs@.take(i as int));
                assert(base_pow((i + 1) as nat) == BASE as nat * p);
                assert(d * p + c * (BASE * p) == (a * k) * p + carry * p) by (nonlinear_arith)
                    requires
                        d + c * BASE == a * k + carry,
                ;
                assert((low + a * p) * k == low * k + (a * k) * p) by (nonlinear_arith);
            }
            limbs.push(d);
            carry = c;
            i += 1;
        }
        proof {
            assert(self.limbs@.take(self.limbs@.len() as int) =~= self.limbs@);
            lemma_value_push(limbs@, carry as u32);
        }
        limbs.push(carry as u32);
        settled(limbs)
    }

    /// `self` times the `k`-th power of the base.
    fn shifted(&self, k: usize) -> (r: Nat)
        ensures
            r@ == self@ * base_pow(k as nat),
    {
        let mut limbs: Vec<u32> = Vec::new();
        let mut i: usize = 0;
        while i < k
            invariant
                i <= k,
                limbs@.len() == i,
                forall|j: int| 0 <= j < limbs@.len() ==> limbs@[j] == 0,
            decreases k - i,
        {
            limbs.push(0);
            i += 1;
        }
        let ghost zeros = limbs@;
        let mut j: usize = 0;
        while j < self.limbs.len()
            invariant
                j <= self.limbs@.len(),
                limbs@ == zeros + self.limbs@.take(j as int),
            decreases self.limbs@.len() - j,
        {
            limbs.push(self.limbs[j]);
            j += 1;
        }
        proof {
            assert(self.limbs@.take(self.limbs@.len() as int) =~= self.limbs@);
            lemma_value_shift(zeros, self.limbs@);
        }
        settled(limbs)
    }

    pub fn times(&self, other: &Nat) -> (r: Nat)
        ensures
            r@ == self@ * other@,
    {
        let mut acc = Nat::zero();
        let mut i: usize = 0;
        proof {
            assert(self.limbs@.take(0) =~= Seq::empty());
            assert(0 * other@ == 0) by (nonlinear_arith);
        }
        while i < self.limbs.len()
            invariant
                i <= self.limbs@.len(),
                acc@ == limbs_value(self.limbs@.take(i as int)) * other@,
            decreases self.limbs@.len() - i,
        {
            let part = other.times_small(self.limbs[i]).shifted(i);
            proof {
                lemma_value_take(self.limbs@, i as int);
                let low = limbs_value(self.limbs@.take(i as int));
                let d = self.limbs@[i as int] as nat;
                let p = base_pow(i as nat);
                let o = other@;
                assert((low + d * p) * o == low * o + (o * d) * p) by (nonlinear_arith);
            }
            acc = acc.plus(&part);
            i += 1;
        }
        assert(self.limbs@.take(self.limbs@.len() as int) =~= self.limbs@);
        acc
    }

    /// `self <= other`.
    pub fn at_most(&self, other: &Nat) -> (r: bool)
        ensures
            r == (self@ <= other@),
    {
        let n: usize = if self.limbs.len() > other.limbs.len() {
            self.limbs.len()
        } else {
            other.limbs.len()
        };
        let mut i: usize = n;
        proof {
            self.lemma_low_all(n as nat);
            other.lemma_low_all(n as nat);
        }
        while i > 0
            invariant
                i <= n,
                self@ - other@ == self.low(i as nat) - other.low(i as nat),
            decreases i,
        {
            let a = self.limb(i - 1);
            let b = other.limb(i - 1);
            proof {
                let j = (i - 1) as nat;
                self.lemma_low_step(j);
                other.lemma_low_step(j);
                self.lemma_low_bound(j);
                other.lemma_low_bound(j);
                let p = base_pow(j);
                if a < b {
                    assert(a * p + p <= b * p) by (nonlinear_arith)
                        requires
                            a + 1 <= b,
                            p >= 0,
                    ;
                } else if b < a {
                    assert(b * p + p <= a * p) by (nonlinear_arith)
                        requires
                            b + 1 <= a,
                            p >= 0,
                    ;
                }
            }
            if a < b {
                return true;
            }
            if b < a {
                return false;
            }
            i -= 1;
        }
        proof {
            assert(self.limbs@.take(0) =~= Seq::empty());
            assert(other.limbs@.take(0) =~= Seq::empty());
        }
        true
    }

    pub fn is_zero(&self) -> (r: bool)
        ensures
            r == (self@ == 0),
    {
        let z = Nat::zero();
        self.at_most(&z)
    }

    pub fn equals(&self, other: &Nat) -> (r: bool)
        ensures
            r == (self@ == other@),
    {
        self.at_most(other) && other.at_most(self)
    }
}

/// An integer of any size.
#[derive(Debug)]
pub struct Signed {
    pub negative: bool,
    pub magnitude: Nat,
}

impl View for Signed {
    type V = int;

    open spec fn view(&self) -> int {
        if self.negative {
            -(self.magnitude@ as int)
        } else {
            self.magnitude@ as int
        }
    }
}

impl Signed {
    pub fn from_nat(n: Nat) -> (r: Signed)
        ensures
            r@ == n@,
    {
        Signed { negative: false, magnitude: n }
    }

    pub fn duplicate(&self) -> (r: Signed)
        ensures
            r@ == self@,
    {
        Signed { negative: self.negative, magnitude: self.magnitude.duplicate() }
    }

    pub fn negated(&self) -> (r: Signed)
        ensures
            r@ == -self@,
    {
        Signed { negative: !self.negative, magnitude: self.magnitude.duplicate() }
    }

    pub fn plus(&self, other: &Signed) -> (r: Signed)
        ensures
            r@ == self@ + other@,
    {
        if self.negative == other.negative {
            Signed { negative: self.negative, magnitude: self.magnitude.plus(&other.magnitude) }
        } else if self.magnitude.at_most(&other.magnitude) {
            Signed { negative: other.negative, magnitude: other.magnitude.minus(&self.magnitude) }
        } else {
            Signed { negative: self.negative, magnitude: self.magnitude.minus(&other.magnitude) }
        }
    }

    /// `self * k`.
    pub fn times(&self, k: &Nat) -> (r: Signed)
        ensures
            r@ == self@ * k@,
    {
        proof {
            let m = self.magnitude@ as int;
            let kk = k@ as int;
            assert((-m) * kk == -(m * kk)) by (nonlinear_arith);
        }
        Signed { negative: self.negative, magnitude: self.magnitude.times(k) }
    }

    /// `self <= other`.
    pub fn at_most(&self, other: &Signed) -> (r: bool)
        ensures
            r == (self@ <= other@),
    {
        if self.negative {
            if other.negative {
                other.magnitude.at_most(&self.magnitude)
            } else {
                true
            }
        } else if other.negative {
            self.magnitude.is_zero() && other.magnitude.is_zero()
        } else {
            self.magnitude.at_most(&other.magnitude)
        }
    }
}

} // verus!
