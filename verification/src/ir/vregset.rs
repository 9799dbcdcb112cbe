//! Sets of virtual registers.

use vstd::prelude::*;
use vstd::std_specs::bits::{axiom_u64_trailing_zeros, u64_trailing_zeros};

use crate::ir::value::VReg;

verus! {

/// A set of virtual registers, as one bit each.
///
/// The dataflow that uses these unions and subtracts them on every round of its
/// fixpoint, and here that is a handful of word operations rather than a hash
/// per register.
#[derive(Clone, PartialEq, Eq)]
pub struct VRegSet {
    words: Vec<u64>,
}

/// Whether a bit of a word is up.
pub open spec fn bit(word: u64, at: u64) -> bool {
    word & (1u64 << at) != 0
}

proof fn no_bits(at: u64)
    requires
        at < 64,
    ensures
        !bit(0, at),
{
    assert(0u64 & (1u64 << at) == 0) by (bit_vector);
}

proof fn bit_raised(word: u64, up: u64, at: u64)
    requires
        up < 64,
        at < 64,
    ensures
        bit(word | (1u64 << up), at) == (at == up || bit(word, at)),
{
    assert(((word | (1u64 << up)) & (1u64 << at) != 0) == (at == up || word & (1u64 << at) != 0))
        by (bit_vector)
        requires
            up < 64,
            at < 64,
    ;
}

proof fn bits_merged(a: u64, b: u64, at: u64)
    ensures
        bit(a | b, at) == (bit(a, at) || bit(b, at)),
{
    let mask = 1u64 << at;
    assert(((a | b) & mask != 0) == (a & mask != 0 || b & mask != 0)) by (bit_vector);
}

proof fn bits_left(a: u64, b: u64, at: u64)
    requires
        at < 64,
    ensures
        bit(a & !b, at) == (bit(a, at) && !bit(b, at)),
{
    assert(((a & !b) & (1u64 << at) != 0) == (a & (1u64 << at) != 0 && !(b & (1u64 << at) != 0)))
        by (bit_vector)
        requires
            at < 64,
    ;
}

/// Two words that are not the same have a bit that is not.
proof fn bits_differ(a: u64, b: u64) -> (at: u64)
    requires
        a != b,
    ensures
        at < 64,
        bit(a, at) != bit(b, at),
{
    let x = a ^ b;
    assert(a ^ b != 0) by (bit_vector)
        requires
            a != b,
    ;
    axiom_u64_trailing_zeros(x);
    let at = u64_trailing_zeros(x) as u64;
    assert((a & (1u64 << at) != 0) != (b & (1u64 << at) != 0)) by (bit_vector)
        requires
            at < 64,
            ((a ^ b) >> at) & 1u64 == 1u64,
    ;
    at
}

impl VRegSet {
    /// How many registers there is a bit for.
    pub closed spec fn room(self) -> nat {
        64 * self.words@.len()
    }

    /// Whether a register is in the set.
    pub closed spec fn has(self, reg: VReg) -> bool {
        &&& reg.0 < self.room()
        &&& bit(self.words@[reg.0 as int / 64], (reg.0 % 64) as u64)
    }

    /// How many of the first `n` registers are not in the set.
    pub open spec fn missing_before(self, n: nat) -> nat
        decreases n,
    {
        if n == 0 {
            0
        } else {
            self.missing_before((n - 1) as nat) + if self.has(VReg((n - 1) as u32)) {
                0nat
            } else {
                1nat
            }
        }
    }

    /// How many registers that there is a bit for are not in the set.
    pub open spec fn missing(self) -> nat {
        self.missing_before(self.room())
    }

    proof fn missing_falls(self, other: VRegSet, n: nat)
        requires
            n <= 0x1_0000_0000,
            forall|reg: VReg| self.has(reg) ==> #[trigger] other.has(reg),
        ensures
            other.missing_before(n) <= self.missing_before(n),
            (exists|reg: VReg| reg.0 < n && !self.has(reg) && #[trigger] other.has(reg))
                ==> other.missing_before(n) < self.missing_before(n),
        decreases n,
    {
        if n > 0 {
            let last = VReg((n - 1) as u32);
            self.missing_falls(other, (n - 1) as nat);
            assert(self.has(last) ==> other.has(last));
            if exists|reg: VReg| reg.0 < n && !self.has(reg) && #[trigger] other.has(reg) {
                let reg = choose|reg: VReg|
                    reg.0 < n && !self.has(reg) && #[trigger] other.has(reg);
                if reg.0 == n - 1 {
                    assert(reg == last);
                } else {
                    assert(reg.0 < n - 1 && !self.has(reg) && other.has(reg));
                }
            }
        }
    }

    pub fn new(registers: usize) -> (set: VRegSet)
        ensures
            set.room() == (registers + 63) / 64 * 64,
            forall|reg: VReg| !#[trigger] set.has(reg),
    {
        let count: usize = registers / 64 + if registers % 64 == 0 {
            0
        } else {
            1
        };
        VRegSet::blank(count)
    }

    pub fn insert(&mut self, reg: VReg)
        requires
            reg.0 < old(self).room(),
        ensures
            final(self).room() == old(self).room(),
            forall|other: VReg| #[trigger]
                final(self).has(other) == (other == reg || old(self).has(other)),
    {
        let word: usize = reg.0 as usize / 64;
        let at: u64 = (reg.0 % 64) as u64;
        let old_word: u64 = self.words[word];
        let new_word: u64 = old_word | (1u64 << at);
        self.words.set(word, new_word);
        assert forall|other: VReg| #[trigger] self.has(other) == (other == reg || old(self).has(
            other,
        )) by {
            let k = (other.0 % 64) as u64;
            bit_raised(old_word, at, k);
            if other.0 as int / 64 == word as int && k == at {
                assert(other.0 == reg.0);
            }
        }
    }

    pub fn contains(&self, reg: VReg) -> (has: bool)
        requires
            reg.0 < self.room(),
        ensures
            has == self.has(reg),
    {
        let word: usize = reg.0 as usize / 64;
        let at: u64 = (reg.0 % 64) as u64;
        self.words[word] & (1u64 << at) != 0
    }

    /// `self |= other`, answering whether that added anything.
    pub fn union_with(&mut self, other: &VRegSet) -> (grew: bool)
        requires
            old(self).room() == other.room() <= 0x1_0000_0000,
        ensures
            final(self).room() == old(self).room(),
            forall|reg: VReg| #[trigger]
                final(self).has(reg) == (old(self).has(reg) || other.has(reg)),
            grew == exists|reg: VReg| #[trigger] final(self).has(reg) && !old(self).has(reg),
            final(self).missing() <= old(self).missing(),
            grew ==> final(self).missing() < old(self).missing(),
    {
        let nothing = VRegSet::blank(self.words.len());
        let grew: bool = self.union_without(other, &nothing);
        grew
    }

    /// As many empty words as asked for.
    fn blank(count: usize) -> (set: VRegSet)
        ensures
            set.words@.len() == count,
            forall|reg: VReg| !#[trigger] set.has(reg),
    {
        let mut words: Vec<u64> = Vec::new();
        let mut i: usize = 0;
        while i < count
            invariant
                i <= count,
                words@.len() == i,
                forall|j: int| 0 <= j < i ==> words@[j] == 0,
            decreases count - i,
        {
            words.push(0);
            i = i + 1;
        }
        let set = VRegSet { words };
        assert forall|reg: VReg| !#[trigger] set.has(reg) by {
            no_bits((reg.0 % 64) as u64);
        }
        set
    }

    /// `self |= other - excluded`, answering whether that added anything.
    pub fn union_without(&mut self, other: &VRegSet, excluded: &VRegSet) -> (grew: bool)
        requires
            old(self).room() == other.room() <= 0x1_0000_0000,
            old(self).room() == excluded.room(),
        ensures
            final(self).room() == old(self).room(),
            forall|reg: VReg| #[trigger]
                final(self).has(reg) == (old(self).has(reg) || (other.has(reg) && !excluded.has(
                    reg,
                ))),
            grew == exists|reg: VReg| #[trigger] final(self).has(reg) && !old(self).has(reg),
            final(self).missing() <= old(self).missing(),
            grew ==> final(self).missing() < old(self).missing(),
    {
        let ghost before = *self;
        let count: usize = self.words.len();
        let mut grew: bool = false;
        let mut i: usize = 0;
        while i < count
            invariant
                64 * count <= 0x1_0000_0000,
                i <= count,
                self.words@.len() == count,
                before.words@.len() == count,
                other.words@.len() == count,
                excluded.words@.len() == count,
                forall|j: int|
                    0 <= j < i ==> #[trigger] self.words@[j] == before.words@[j] | (other.words@[j]
                        & !excluded.words@[j]),
                forall|j: int| i <= j < count ==> #[trigger] self.words@[j] == before.words@[j],
                grew == exists|j: int|
                    0 <= j < i && #[trigger] self.words@[j] != before.words@[j],
            decreases count - i,
        {
            let mine: u64 = self.words[i];
            let merged: u64 = mine | (other.words[i] & !excluded.words[i]);
            let ghost so_far = self.words@;
            let ghost grew_so_far = grew;
            if merged != mine {
                grew = true;
            }
            self.words.set(i, merged);
            proof {
                if merged != mine {
                    assert(self.words@[i as int] != before.words@[i as int]);
                }
                if grew_so_far {
                    let j = choose|j: int|
                        0 <= j < i && #[trigger] so_far[j] != before.words@[j];
                    assert(self.words@[j] != before.words@[j]);
                }
                if exists|j: int| 0 <= j < i + 1 && #[trigger] self.words@[j] != before.words@[j] {
                    let j = choose|j: int|
                        0 <= j < i + 1 && #[trigger] self.words@[j] != before.words@[j];
                    if j < i {
                        assert(so_far[j] != before.words@[j]);
                    }
                }
            }
            i = i + 1;
        }
        proof {
            assert forall|reg: VReg| #[trigger] self.has(reg) == (before.has(reg) || (other.has(reg)
                && !excluded.has(reg))) by {
                if reg.0 < self.room() {
                    let j = reg.0 as int / 64;
                    let k = (reg.0 % 64) as u64;
                    assert(self.words@[j] == before.words@[j] | (other.words@[j]
                        & !excluded.words@[j]));
                    bits_left(other.words@[j], excluded.words@[j], k);
                    bits_merged(before.words@[j], other.words@[j] & !excluded.words@[j], k);
                }
            }
            let n: nat = self.room();
            before.missing_falls(*self, n);
            if grew {
                let j = choose|j: int| 0 <= j < i && #[trigger] self.words@[j] != before.words@[j];
                let k = bits_differ(self.words@[j], before.words@[j]);
                let reg = VReg((64 * j + k) as u32);
                assert(reg.0 == 64 * j + k);
                assert(reg.0 as int / 64 == j && reg.0 % 64 == k);
                assert(self.has(reg) != before.has(reg));
                assert(reg.0 < n && !before.has(reg) && self.has(reg));
            }
        }
        grew
    }

    /// Every register in the set, in order.
    pub fn iter(&self) -> (list: Vec<VReg>)
        requires
            self.room() <= 0x1_0000_0000,
        ensures
            forall|reg: VReg| #[trigger] list@.contains(reg) == self.has(reg),
            forall|i: int, j: int|
                0 <= i < j < list@.len() ==> (#[trigger] list@[i]).0 < (#[trigger] list@[j]).0,
    {
        let mut list: Vec<VReg> = Vec::new();
        let count: u64 = 64 * self.words.len() as u64;
        let mut i: u64 = 0;
        while i < count
            invariant
                i <= count == self.room() <= 0x1_0000_0000,
                forall|k: int| 0 <= k < list@.len() ==> (#[trigger] list@[k]).0 < i,
                forall|k: int| 0 <= k < list@.len() ==> self.has(#[trigger] list@[k]),
                forall|reg: VReg| reg.0 < i && #[trigger] self.has(reg) ==> list@.contains(reg),
                forall|a: int, b: int|
                    0 <= a < b < list@.len() ==> (#[trigger] list@[a]).0 < (#[trigger] list@[b]).0,
            decreases count - i,
        {
            let reg = VReg(i as u32);
            let ghost before = list@;
            if self.contains(reg) {
                list.push(reg);
                assert(list@[before.len() as int] == reg);
                assert forall|other: VReg| before.contains(other) implies list@.contains(other) by {
                    let k = choose|k: int| 0 <= k < before.len() && before[k] == other;
                    assert(list@[k] == other);
                }
            }
            i = i + 1;
            assert forall|other: VReg| other.0 < i && #[trigger] self.has(other) implies list@.contains(
                other,
            ) by {
                if other.0 == i - 1 {
                    assert(other == reg);
                }
            }
        }
        list
    }
}

} // verus!
