//! Natural numbers of any size, which is what rounding a double once takes.

use vstd::arithmetic::power2::{lemma_pow2_adds, lemma_pow2_pos, pow2};
use vstd::prelude::*;

verus! {

/// What a one in limb `i` is worth.
pub open spec fn place(i: nat) -> nat {
    pow2(32 * i)
}

/// Limb `i`, reading zeroes past the end.
pub open spec fn limb(s: Seq<u32>, i: int) -> nat {
    if 0 <= i < s.len() {
        s[i] as nat
    } else {
        0
    }
}

/// What the first `n` limbs are worth.
pub open spec fn total(s: Seq<u32>, n: nat) -> nat
    decreases n,
{
    if n == 0 {
        0
    } else {
        total(s, (n - 1) as nat) + limb(s, n - 1) * place((n - 1) as nat)
    }
}

/// A natural number, as limbs of 32 bits, the least worth first.
#[derive(Debug)]
pub struct Big {
    pub limbs: Vec<u32>,
}

impl View for Big {
    type V = nat;

    open spec fn view(&self) -> nat {
        total(self.limbs@, self.limbs@.len())
    }
}

/// How one number stands to another.
#[derive(Clone, Copy, Debug, PartialEq, Eq, Structural)]
pub enum Side {
    Below,
    Same,
    Above,
}

/// How `a` stands to `b`.
pub open spec fn side(a: int, b: int) -> Side {
    if a < b {
        Side::Below
    } else if a == b {
        Side::Same
    } else {
        Side::Above
    }
}

proof fn place_step(i: nat)
    ensures
        place(i + 1) == 0x1_0000_0000 * place(i),
        place(i) > 0,
{
    lemma_pow2_adds(32 * i, 32);
    lemma_pow2_pos(32 * i);
    assert(pow2(32) == 0x1_0000_0000) by {
        vstd::arithmetic::power2::lemma2_to64();
    }
    assert(32 * (i + 1) == 32 * i + 32);
    assert(place(i) * 0x1_0000_0000 == 0x1_0000_0000 * place(i)) by (nonlinear_arith);
}

proof fn total_past_the_end(s: Seq<u32>, n: nat)
    requires
        n >= s.len(),
    ensures
        total(s, n) == total(s, s.len()),
    decreases n,
{
    if n > s.len() {
        total_past_the_end(s, (n - 1) as nat);
        assert(limb(s, n - 1) * place((n - 1) as nat) == 0) by (nonlinear_arith)
            requires
                limb(s, n - 1) == 0,
        ;
    }
}

/// Only the first `n` limbs decide what they are worth.
proof fn total_agrees(s: Seq<u32>, t: Seq<u32>, n: nat)
    requires
        forall|i: int| 0 <= i < n ==> limb(s, i) == limb(t, i),
    ensures
        total(s, n) == total(t, n),
    decreases n,
{
    if n > 0 {
        total_agrees(s, t, (n - 1) as nat);
    }
}

proof fn total_below_place(s: Seq<u32>, n: nat)
    ensures
        total(s, n) < place(n),
    decreases n,
{
    if n == 0 {
        place_step(0);
    } else {
        let m = (n - 1) as nat;
        total_below_place(s, m);
        place_step(m);
        let l = limb(s, m as int);
        let p = place(m);
        let t = total(s, m);
        assert(l <= 0xffff_ffff);
        assert(t + l * p < 0x1_0000_0000 * p) by (nonlinear_arith)
            requires
                t < p,
                l <= 0xffff_ffff,
        ;
    }
}

/// What limbs are worth after `k` empty ones are put under them.
proof fn total_shifted(s: Seq<u32>, t: Seq<u32>, k: nat, n: nat)
    requires
        forall|i: int| 0 <= i < k ==> limb(t, i) == 0,
        forall|i: int| 0 <= i < n ==> limb(t, i + k) == limb(s, i),
    ensures
        total(t, n + k) == total(s, n) * place(k),
    decreases n + k,
{
    if n == 0 {
        if k > 0 {
            total_shifted(s, t, (k - 1) as nat, 0);
            assert(limb(t, k - 1) * place((k - 1) as nat) == 0) by (nonlinear_arith)
                requires
                    limb(t, k - 1) == 0,
            ;
            assert(total(s, 0) == 0);
            assert(0 * place((k - 1) as nat) == 0);
        }
        assert(0 * place(k) == 0);
    } else {
        let m = (n - 1) as nat;
        total_shifted(s, t, k, m);
        lemma_pow2_adds(32 * m, 32 * k);
        assert(32 * (m + k) == 32 * m + 32 * k);
        assert(place((m + k) as nat) == place(m) * place(k));
        let l = limb(s, m as int);
        assert(limb(t, (m + k) as int) == l);
        assert(total(s, m) * place(k) + l * (place(m) * place(k)) == (total(s, m) + l * place(m))
            * place(k)) by (nonlinear_arith);
        assert((n + k - 1) as nat == m + k);
    }
}

impl Big {
    pub fn from_u64(n: u64) -> (big: Big)
        ensures
            big@ == n,
            big.limbs@.len() == 2,
    {
        let low: u32 = (n % 0x1_0000_0000) as u32;
        let high: u32 = (n / 0x1_0000_0000) as u32;
        let limbs: Vec<u32> = vec![low, high];
        proof {
            let s = limbs@;
            place_step(0);
            assert(place(0) == 1) by {
                vstd::arithmetic::power2::lemma2_to64();
            }
            assert(place(1) == 0x1_0000_0000 * place(0));
            reveal_with_fuel(total, 3);
            assert(total(s, 1) == limb(s, 0) * place(0));
            assert(limb(s, 0) * place(0) == limb(s, 0)) by (nonlinear_arith)
                requires
                    place(0) == 1,
            ;
            assert(total(s, 2) == total(s, 1) + limb(s, 1) * place(1));
            assert(limb(s, 1) * place(1) == limb(s, 1) * 0x1_0000_0000);
        }
        Big { limbs }
    }

    /// A limb, reading zeroes past the end.
    fn at(&self, i: usize) -> (value: u32)
        ensures
            value == limb(self.limbs@, i as int),
    {
        if i < self.limbs.len() {
            self.limbs[i]
        } else {
            0
        }
    }

    /// Two to the `k`.
    pub fn power_of_two(k: u32) -> (big: Big)
        ensures
            big@ == pow2(k as nat),
            big.limbs@.len() == k / 32 + 1,
    {
        let whole: u32 = k / 32;
        let rest: u32 = k % 32;
        let mut limbs: Vec<u32> = Vec::new();
        let mut i: u32 = 0;
        while i < whole
            invariant
                i <= whole,
                limbs@.len() == i,
                forall|j: int| 0 <= j < i ==> limbs@[j] == 0,
            decreases whole - i,
        {
            limbs.push(0);
            i = i + 1;
        }
        let top: u32 = 1u32 << rest;
        limbs.push(top);
        proof {
            vstd::arithmetic::power2::lemma2_to64();
            lemma_pow2_pos(rest as nat);
            vstd::arithmetic::power2::lemma_pow2_strictly_increases(rest as nat, 32);
            vstd::bits::lemma_u32_shl_is_mul(1, rest);
            assert(top == pow2(rest as nat));
            let one = seq![top];
            total_shifted(one, limbs@, whole as nat, 1);
            reveal_with_fuel(total, 2);
            assert(total(one, 1) == limb(one, 0) * place(0));
            assert(limb(one, 0) * place(0) == top) by (nonlinear_arith)
                requires
                    place(0) == 1,
                    limb(one, 0) == top,
            ;
            lemma_pow2_adds(rest as nat, 32 * whole as nat);
            assert(32 * whole + rest == k);
        }
        Big { limbs }
    }

    pub fn plus(&self, other: &Big) -> (sum: Big)
        requires
            self.limbs@.len() < usize::MAX,
            other.limbs@.len() < usize::MAX,
        ensures
            sum@ == self@ + other@,
            sum.limbs@.len() <= self.limbs@.len() + 1 || sum.limbs@.len() <= other.limbs@.len() + 1,
    {
        let n: usize = if self.limbs.len() > other.limbs.len() {
            self.limbs.len()
        } else {
            other.limbs.len()
        };
        let mut limbs: Vec<u32> = Vec::new();
        let mut carry: u64 = 0;
        let mut i: usize = 0;
        while i < n
            invariant
                i <= n,
                limbs@.len() == i,
                carry <= 1,
                total(limbs@, i as nat) + carry * place(i as nat) == total(self.limbs@, i as nat)
                    + total(other.limbs@, i as nat),
            decreases n - i,
        {
            let a: u32 = self.at(i);
            let b: u32 = other.at(i);
            let sum: u64 = a as u64 + b as u64 + carry;
            let ghost before = limbs@;
            let low: u32 = (sum % 0x1_0000_0000) as u32;
            limbs.push(low);
            proof {
                let p = place(i as nat);
                place_step(i as nat);
                total_agrees(before, limbs@, i as nat);
                assert(limb(limbs@, i as int) == low);
                let high = sum / 0x1_0000_0000;
                assert(sum == low + 0x1_0000_0000 * high);
                assert(low * p + high * (0x1_0000_0000 * p) == a * p + b * p + carry * p)
                    by (nonlinear_arith)
                    requires
                        a + b + carry == low + 0x1_0000_0000 * high,
                ;
            }
            carry = sum / 0x1_0000_0000;
            i = i + 1;
        }
        let ghost before = limbs@;
        if carry > 0 {
            limbs.push(carry as u32);
        }
        proof {
            total_agrees(before, limbs@, n as nat);
            total_past_the_end(self.limbs@, n as nat);
            total_past_the_end(other.limbs@, n as nat);
            assert(limb(limbs@, n as int) == carry);
            assert(carry == 0 ==> carry * place(n as nat) == 0);
        }
        Big { limbs }
    }

    /// This number times one limb.
    pub fn times_limb(&self, k: u32) -> (product: Big)
        requires
            self.limbs@.len() < usize::MAX,
        ensures
            product@ == self@ * k,
            product.limbs@.len() <= self.limbs@.len() + 1,
    {
        self.times_limb_plus(k, 0)
    }

    /// This number times one limb, with another added.
    pub fn times_limb_plus(&self, k: u32, added: u32) -> (product: Big)
        requires
            self.limbs@.len() < usize::MAX,
        ensures
            product@ == self@ * k + added,
            product.limbs@.len() <= self.limbs@.len() + 1,
    {
        let n: usize = self.limbs.len();
        let mut limbs: Vec<u32> = Vec::new();
        let mut carry: u64 = added as u64;
        let mut i: usize = 0;
        assert(0 * k == 0 && added * place(0) == added) by {
            vstd::arithmetic::power2::lemma2_to64();
            assert(added * 1 == added);
        }
        while i < n
            invariant
                i <= n == self.limbs@.len(),
                limbs@.len() == i,
                carry <= 0xffff_ffff,
                total(limbs@, i as nat) + carry * place(i as nat) == total(self.limbs@, i as nat)
                    * k + added,
            decreases n - i,
        {
            let a: u32 = self.limbs[i];
            assert(a * k <= 0xffff_fffe_0000_0001) by (nonlinear_arith)
                requires
                    a <= 0xffff_ffff,
                    k <= 0xffff_ffff,
            ;
            let product: u64 = a as u64 * k as u64 + carry;
            let ghost before = limbs@;
            let low: u32 = (product % 0x1_0000_0000) as u32;
            limbs.push(low);
            proof {
                let p = place(i as nat);
                place_step(i as nat);
                total_agrees(before, limbs@, i as nat);
                assert(limb(limbs@, i as int) == low);
                let high = product / 0x1_0000_0000;
                assert(product == low + 0x1_0000_0000 * high);
                let t = total(self.limbs@, i as nat);
                let u = total(before, i as nat);
                assert(low * p + high * (0x1_0000_0000 * p) + u == (t + a * p) * k + added)
                    by (nonlinear_arith)
                    requires
                        a * k + carry == low + 0x1_0000_0000 * high,
                        u + carry * p == t * k + added,
                ;
            }
            carry = product / 0x1_0000_0000;
            i = i + 1;
        }
        let ghost before = limbs@;
        if carry > 0 {
            limbs.push(carry as u32);
        }
        proof {
            total_agrees(before, limbs@, n as nat);
            assert(limb(limbs@, n as int) == carry);
            assert(carry == 0 ==> carry * place(n as nat) == 0);
        }
        Big { limbs }
    }

    /// This number with `k` empty limbs under it.
    fn raised(&self, k: usize) -> (raised: Big)
        ensures
            raised@ == self@ * place(k as nat),
            raised.limbs@.len() == self.limbs@.len() + k,
    {
        let mut limbs: Vec<u32> = Vec::new();
        let mut i: usize = 0;
        while i < k
            invariant
                i <= k,
                limbs@.len() == i,
                forall|j: int| 0 <= j < i ==> limbs@[j] == 0,
            decreases k - i,
        {
            limbs.push(0);
            i = i + 1;
        }
        let mut i: usize = 0;
        while i < self.limbs.len()
            invariant
                i <= self.limbs@.len(),
                limbs@.len() == k + i,
                forall|j: int| 0 <= j < k ==> limbs@[j] == 0,
                forall|j: int| 0 <= j < i ==> limbs@[j + k] == self.limbs@[j],
            decreases self.limbs@.len() - i,
        {
            limbs.push(self.limbs[i]);
            i = i + 1;
        }
        proof {
            total_shifted(self.limbs@, limbs@, k as nat, self.limbs@.len());
        }
        Big { limbs }
    }

    pub fn times(&self, other: &Big) -> (product: Big)
        requires
            self.limbs@.len() + 2 * other.limbs@.len() + 2 < usize::MAX,
        ensures
            product@ == self@ * other@,
            product.limbs@.len() <= self.limbs@.len() + 2 * other.limbs@.len() + 2,
    {
        let mut sum: Big = Big { limbs: Vec::new() };
        let n: usize = other.limbs.len();
        let mut i: usize = 0;
        assert(sum@ == self@ * total(other.limbs@, 0)) by {
            assert(self@ * 0 == 0);
        }
        while i < n
            invariant
                i <= n == other.limbs@.len(),
                self.limbs@.len() + 2 * n + 2 < usize::MAX,
                sum@ == self@ * total(other.limbs@, i as nat),
                sum.limbs@.len() <= self.limbs@.len() + 2 * i + 2,
            decreases n - i,
        {
            let row: Big = self.times_limb(other.limbs[i]);
            let row: Big = row.raised(i);
            proof {
                let t = total(other.limbs@, i as nat);
                let l = limb(other.limbs@, i as int);
                let p = place(i as nat);
                assert(self@ * t + (self@ * l) * p == self@ * (t + l * p)) by (nonlinear_arith);
            }
            sum = sum.plus(&row);
            i = i + 1;
        }
        sum
    }

    /// How this number stands to another.
    pub fn against(&self, other: &Big) -> (stands: Side)
        ensures
            stands == side(self@ as int, other@ as int),
    {
        let n: usize = if self.limbs.len() > other.limbs.len() {
            self.limbs.len()
        } else {
            other.limbs.len()
        };
        proof {
            total_past_the_end(self.limbs@, n as nat);
            total_past_the_end(other.limbs@, n as nat);
        }
        let mut i: usize = n;
        while i > 0
            invariant
                i <= n,
                side(self@ as int, other@ as int) == side(
                    total(self.limbs@, i as nat) as int,
                    total(other.limbs@, i as nat) as int,
                ),
            decreases i,
        {
            let a: u32 = self.at(i - 1);
            let b: u32 = other.at(i - 1);
            proof {
                let m = (i - 1) as nat;
                total_below_place(self.limbs@, m);
                total_below_place(other.limbs@, m);
                let s = total(self.limbs@, m);
                let t = total(other.limbs@, m);
                let p = place(m);
                if a < b {
                    assert(s + a * p < t + b * p) by (nonlinear_arith)
                        requires
                            s < p,
                            a < b,
                            t >= 0,
                    ;
                } else if b < a {
                    assert(t + b * p < s + a * p) by (nonlinear_arith)
                        requires
                            t < p,
                            b < a,
                            s >= 0,
                    ;
                }
            }
            if a < b {
                return Side::Below;
            }
            if a > b {
                return Side::Above;
            }
            i = i - 1;
        }
        Side::Same
    }
}

} // verus!
