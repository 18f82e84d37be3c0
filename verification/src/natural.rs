//! Natural numbers of any size, for the exact intermediate results of
//! [`Double`](crate::double::Double) arithmetic.

use vstd::arithmetic::power2;
use vstd::prelude::*;

verus! {

/// The limb of weight `2^(32 * i)`; zero above the stored ones.
pub open spec fn limb(limbs: Seq<u32>, i: nat) -> nat {
    if i < limbs.len() {
        limbs[i as int] as nat
    } else {
        0
    }
}

/// The number that the lowest `n` limbs stand for.
pub open spec fn low(limbs: Seq<u32>, n: nat) -> nat
    decreases n,
{
    if n == 0 {
        0
    } else {
        let i = (n - 1) as nat;
        low(limbs, i) + limb(limbs, i) * power2::pow2(32 * i)
    }
}

/// A natural number, as limbs of 32 bits with the least significant first.
pub struct Natural {
    limbs: Vec<u32>,
}

impl View for Natural {
    type V = nat;

    closed spec fn view(&self) -> nat {
        low(self.limbs@, self.limbs@.len())
    }
}

proof fn lemma_limb_weight(n: nat)
    ensures
        power2::pow2(32 * (n + 1)) == power2::pow2(32 * n) * 0x1_0000_0000,
        power2::pow2(32 * n) > 0,
{
    power2::lemma_pow2_adds(32 * n, 32);
    power2::lemma_pow2_pos(32 * n);
    power2::lemma2_to64();
    assert(32 * (n + 1) == 32 * n + 32);
}

proof fn lemma_low_bound(limbs: Seq<u32>, n: nat)
    ensures
        low(limbs, n) < power2::pow2(32 * n),
    decreases n,
{
    if n == 0 {
        power2::lemma_pow2_pos(0);
    } else {
        let i = (n - 1) as nat;
        lemma_low_bound(limbs, i);
        lemma_limb_weight(i);
        let l = limb(limbs, i);
        let w = power2::pow2(32 * i);
        assert(low(limbs, i) + l * w < w * 0x1_0000_0000) by (nonlinear_arith)
            requires
                low(limbs, i) < w,
                l < 0x1_0000_0000,
        ;
    }
}

/// Limbs above the stored ones add nothing.
proof fn lemma_low_padding(limbs: Seq<u32>, n: nat)
    requires
        n >= limbs.len(),
    ensures
        low(limbs, n) == low(limbs, limbs.len()),
    decreases n,
{
    if n > limbs.len() {
        let i = (n - 1) as nat;
        lemma_low_padding(limbs, i);
        assert(limb(limbs, i) * power2::pow2(32 * i) == 0) by (nonlinear_arith)
            requires
                limb(limbs, i) == 0,
        ;
    }
}

/// The lowest `n` limbs are the whole number, or the number is at least `2^(32 * n)`.
proof fn lemma_low_or_large(limbs: Seq<u32>, n: nat, m: nat)
    requires
        n <= m,
    ensures
        low(limbs, m) >= low(limbs, n),
        low(limbs, m) == low(limbs, n) || low(limbs, m) >= power2::pow2(32 * n),
    decreases m,
{
    if n < m {
        let i = (m - 1) as nat;
        lemma_low_or_large(limbs, n, i);
        let l = limb(limbs, i);
        let w = power2::pow2(32 * i);
        if l == 0 {
            assert(l * w == 0) by (nonlinear_arith)
                requires
                    l == 0,
            ;
        } else {
            assert(l * w >= w) by (nonlinear_arith)
                requires
                    l >= 1,
            ;
            if n < i {
                power2::lemma_pow2_strictly_increases(32 * n, 32 * i);
            }
        }
    }
}

/// Two numbers with the same low limbs have the same low part.
proof fn lemma_low_same(a: Seq<u32>, b: Seq<u32>, n: nat)
    requires
        forall|j: nat| j < n ==> limb(a, j) == limb(b, j),
    ensures
        low(a, n) == low(b, n),
    decreases n,
{
    if n > 0 {
        lemma_low_same(a, b, (n - 1) as nat);
    }
}

impl Natural {
    pub fn from_u128(n: u128) -> (r: Self)
        ensures
            r@ == n,
    {
        let mut limbs: Vec<u32> = Vec::new();
        let mut rest: u128 = n;
        proof {
            power2::lemma2_to64();
            assert(rest * power2::pow2(0) == n) by (nonlinear_arith)
                requires
                    rest == n,
                    power2::pow2(0) == 1,
            ;
        }
        while rest > 0
            invariant
                low(limbs@, limbs@.len()) + rest * power2::pow2(32 * limbs@.len()) == n,
            decreases rest,
        {
            let ghost before = limbs@;
            let ghost k = limbs@.len();
            let ghost whole = rest as nat;
            let piece: u32 = (rest % 0x1_0000_0000) as u32;
            rest = rest / 0x1_0000_0000;
            limbs.push(piece);
            proof {
                lemma_limb_weight(k);
                lemma_low_same(before, limbs@, k);
                let w = power2::pow2(32 * k);
                assert(piece * w + rest * (w * 0x1_0000_0000) == whole * w) by (nonlinear_arith)
                    requires
                        whole == piece + rest * 0x1_0000_0000,
                ;
            }
        }
        proof {
            assert(rest * power2::pow2(32 * limbs@.len()) == 0) by (nonlinear_arith)
                requires
                    rest == 0,
            ;
        }
        Natural { limbs }
    }

    fn limb_at(&self, i: usize) -> (r: u32)
        ensures
            r == limb(self.limbs@, i as nat),
    {
        if i < self.limbs.len() {
            self.limbs[i]
        } else {
            0
        }
    }

    /// Multiplies by `factor`, then adds `addend`.
    pub fn mul_add(&mut self, factor: u32, addend: u32)
        ensures
            final(self)@ == old(self)@ * factor + addend,
    {
        let ghost before = self.limbs@;
        let mut carry: u32 = addend;
        let mut i: usize = 0;
        proof {
            power2::lemma2_to64();
            assert(carry * power2::pow2(0) == addend) by (nonlinear_arith)
                requires
                    carry == addend,
                    power2::pow2(0) == 1,
            ;
            assert(low(before, 0) * factor == 0) by (nonlinear_arith)
                requires
                    low(before, 0) == 0,
            ;
        }
        while i < self.limbs.len()
            invariant
                i <= self.limbs@.len(),
                self.limbs@.len() == before.len(),
                before == old(self).limbs@,
                forall|j: int| i <= j < before.len() ==> self.limbs@[j] == before[j],
                low(self.limbs@, i as nat) + carry * power2::pow2(32 * i as nat) == low(
                    before,
                    i as nat,
                ) * factor + addend,
            decreases self.limbs@.len() - i,
        {
            let ghost current = self.limbs@;
            let ghost old_carry = carry;
            let old_limb: u32 = self.limbs[i];
            assert(old_limb * factor + carry <= 0xffff_ffff_ffff_ffff) by (nonlinear_arith)
                requires
                    old_limb <= 0xffff_ffff,
                    factor <= 0xffff_ffff,
                    carry <= 0xffff_ffff,
            ;
            assert(old_limb * factor <= 0xffff_ffff_ffff_ffff) by (nonlinear_arith)
                requires
                    old_limb <= 0xffff_ffff,
                    factor <= 0xffff_ffff,
            ;
            let t: u64 = old_limb as u64 * factor as u64 + carry as u64;
            let piece: u32 = (t % 0x1_0000_0000) as u32;
            carry = (t / 0x1_0000_0000) as u32;
            self.limbs.set(i, piece);
            proof {
                let k = i as nat;
                lemma_limb_weight(k);
                lemma_low_same(current, self.limbs@, k);
                let w = power2::pow2(32 * k);
                let lo = low(current, k) as int;
                let lob = low(before, k) as int;
                assert(lo + piece * w + carry * (w * 0x1_0000_0000) == (lob + old_limb * w) * factor
                    + addend) by (nonlinear_arith)
                    requires
                        lo + old_carry * w == lob * factor + addend,
                        piece + carry * 0x1_0000_0000 == old_limb * factor + old_carry,
                ;
            }
            i = i + 1;
        }
        if carry > 0 {
            let ghost current = self.limbs@;
            self.limbs.push(carry);
            proof {
                lemma_low_same(current, self.limbs@, current.len());
            }
        } else {
            assert(carry * power2::pow2(32 * i as nat) == 0) by (nonlinear_arith)
                requires
                    carry == 0,
            ;
        }
    }

    /// Multiplies by two.
    pub fn double(&mut self)
        ensures
            final(self)@ == old(self)@ * 2,
    {
        self.mul_add(2, 0);
    }

    /// Multiplies by `2^n`.
    pub fn shift_up(&mut self, n: u32)
        ensures
            final(self)@ == old(self)@ * power2::pow2(n as nat),
    {
        let ghost start = self@;
        let mut i: u32 = 0;
        proof {
            power2::lemma2_to64();
            assert(start * power2::pow2(0) == start) by (nonlinear_arith)
                requires
                    power2::pow2(0) == 1,
            ;
        }
        while i < n
            invariant
                i <= n,
                start == old(self)@,
                self@ == start * power2::pow2(i as nat),
            decreases n - i,
        {
            self.double();
            proof {
                power2::lemma_pow2_unfold((i + 1) as nat);
                let w = power2::pow2(i as nat);
                assert(start * w * 2 == start * (2 * w)) by (nonlinear_arith);
            }
            i = i + 1;
        }
    }

    /// Whether this number is smaller than `other`.
    pub fn less(&self, other: &Natural) -> (r: bool)
        ensures
            r == (self@ < other@),
    {
        let a_len: usize = self.limbs.len();
        let b_len: usize = other.limbs.len();
        let mut i: usize = if a_len < b_len {
            b_len
        } else {
            a_len
        };
        proof {
            lemma_low_padding(self.limbs@, i as nat);
            lemma_low_padding(other.limbs@, i as nat);
        }
        while i > 0
            invariant
                self@ - low(self.limbs@, i as nat) == other@ - low(other.limbs@, i as nat),
            decreases i,
        {
            let a: u32 = self.limb_at(i - 1);
            let b: u32 = other.limb_at(i - 1);
            proof {
                let k = (i - 1) as nat;
                let w = power2::pow2(32 * k);
                lemma_low_bound(self.limbs@, k);
                lemma_low_bound(other.limbs@, k);
                if a < b {
                    assert(a * w + w <= b * w) by (nonlinear_arith)
                        requires
                            a + 1 <= b,
                    ;
                } else if b < a {
                    assert(b * w + w <= a * w) by (nonlinear_arith)
                        requires
                            b + 1 <= a,
                    ;
                }
            }
            if a != b {
                return a < b;
            }
            i = i - 1;
        }
        false
    }

    /// Adds `other`.
    pub fn plus(&mut self, other: &Natural)
        ensures
            final(self)@ == old(self)@ + other@,
    {
        let ghost before = self.limbs@;
        let mut carry: u32 = 0;
        let mut i: usize = 0;
        proof {
            power2::lemma2_to64();
            lemma_low_padding(before, before.len());
        }
        while i < self.limbs.len() || i < other.limbs.len()
            invariant
                i <= self.limbs@.len() || i <= other.limbs@.len(),
                before == old(self).limbs@,
                carry <= 1,
                self.limbs@.len() == if i <= before.len() {
                    before.len()
                } else {
                    i as nat
                },
                forall|j: nat| i <= j ==> limb(self.limbs@, j) == limb(before, j),
                low(self.limbs@, i as nat) + carry * power2::pow2(32 * i as nat) == low(
                    before,
                    i as nat,
                ) + low(other.limbs@, i as nat),
            decreases before.len() + other.limbs@.len() - i,
        {
            let ghost current = self.limbs@;
            let ghost old_carry = carry;
            let a: u32 = self.limb_at(i);
            let b: u32 = other.limb_at(i);
            let t: u64 = a as u64 + b as u64 + carry as u64;
            let piece: u32 = (t % 0x1_0000_0000) as u32;
            carry = (t / 0x1_0000_0000) as u32;
            if i < self.limbs.len() {
                self.limbs.set(i, piece);
            } else {
                self.limbs.push(piece);
            }
            proof {
                let k = i as nat;
                lemma_limb_weight(k);
                lemma_low_same(current, self.limbs@, k);
                assert(limb(before, k) == limb(current, k));
                let w = power2::pow2(32 * k);
                assert(piece * w + carry * (w * 0x1_0000_0000) == (a + b + old_carry) * w)
                    by (nonlinear_arith)
                    requires
                        piece + carry * 0x1_0000_0000 == a + b + old_carry,
                ;
                assert((a + b + old_carry) * w == a * w + b * w + old_carry * w)
                    by (nonlinear_arith);
            }
            i = i + 1;
        }
        proof {
            lemma_low_padding(before, i as nat);
            lemma_low_padding(other.limbs@, i as nat);
            lemma_low_padding(self.limbs@, i as nat);
        }
        if carry > 0 {
            let ghost current = self.limbs@;
            self.limbs.push(carry);
            proof {
                lemma_low_same(current, self.limbs@, current.len());
            }
        } else {
            assert(carry * power2::pow2(32 * i as nat) == 0) by (nonlinear_arith)
                requires
                    carry == 0,
            ;
        }
    }

    /// Takes `other` away.
    pub fn minus(&mut self, other: &Natural)
        requires
            other@ <= old(self)@,
        ensures
            final(self)@ == old(self)@ - other@,
    {
        let ghost before = self.limbs@;
        let mut borrow: u32 = 0;
        let mut i: usize = 0;
        proof {
            power2::lemma2_to64();
        }
        while i < self.limbs.len()
            invariant
                i <= self.limbs@.len(),
                before == old(self).limbs@,
                self.limbs@.len() == before.len(),
                borrow <= 1,
                forall|j: int| i <= j < before.len() ==> self.limbs@[j] == before[j],
                low(self.limbs@, i as nat) + low(other.limbs@, i as nat) == low(before, i as nat)
                    + borrow * power2::pow2(32 * i as nat),
            decreases self.limbs@.len() - i,
        {
            let ghost current = self.limbs@;
            let ghost old_borrow = borrow;
            let a: u32 = self.limbs[i];
            let b: u32 = other.limb_at(i);
            let t: u64 = 0x1_0000_0000 + a as u64 - b as u64 - borrow as u64;
            let piece: u32 = (t % 0x1_0000_0000) as u32;
            borrow = if t < 0x1_0000_0000 {
                1
            } else {
                0
            };
            self.limbs.set(i, piece);
            proof {
                let k = i as nat;
                lemma_limb_weight(k);
                lemma_low_same(current, self.limbs@, k);
                let w = power2::pow2(32 * k);
                assert(piece * w + b * w + old_borrow * w == a * w + borrow * (w * 0x1_0000_0000))
                    by (nonlinear_arith)
                    requires
                        piece + b + old_borrow == a + borrow * 0x1_0000_0000,
                ;
            }
            i = i + 1;
        }
        proof {
            lemma_low_bound(before, i as nat);
            lemma_low_bound(self.limbs@, i as nat);
            lemma_low_padding(other.limbs@, if i <= other.limbs@.len() { other.limbs@.len() } else { i as nat });
            lemma_low_or_large(other.limbs@, i as nat, if i <= other.limbs@.len() { other.limbs@.len() } else { i as nat });
            let w = power2::pow2(32 * i as nat);
            assert(borrow == 0 ==> borrow * w == 0) by (nonlinear_arith);
            assert(borrow == 1 ==> borrow * w == w) by (nonlinear_arith);
        }
    }

    pub fn is_zero(&self) -> (r: bool)
        ensures
            r == (self@ == 0),
    {
        let zero = Natural::from_u128(0);
        !zero.less(self)
    }

    pub fn copy(&self) -> (r: Self)
        ensures
            r@ == self@,
    {
        Natural { limbs: self.limbs.clone() }
    }
}

} // verus!
