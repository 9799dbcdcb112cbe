//! Naming the registers SSA introduces.
//!
//! A definition made here stands for the same variable as the one it was split
//! from, and the dump is much easier to read if it says so: `%n`, `%n.1`,
//! `%n.2` rather than three unrelated numbers. Lowering already spells a second
//! `n` in a second scope that way, so the two agree on what a suffix means, and
//! the search for a free one is what keeps them from choosing the same one
//! twice.
//!
//! The **first** version of a variable keeps the variable's own name. That is
//! not only tidier: a temporary is written once and so has exactly one version,
//! and without this every `%t3` in every dump would become `%t3.1` for no reason
//! a reader could see.

use vstd::prelude::*;

use crate::ir::func::{Function, FunctionView};
use crate::ir::value::VReg;
use crate::text::{
    chars_of, decimal_is_one_to_one, decimal_nat, push_decimal_u64, text_between, text_views,
};

verus! {

pub struct Names {
    names: Vec<String>,
    /// Originals that have had their name handed to a version already.
    spent: Vec<bool>,
}

/// What [`Names`] have given out.
#[verifier::ext_equal]
pub struct NamesView {
    pub names: Seq<Seq<char>>,
    pub spent: Seq<bool>,
}

impl View for Names {
    type V = NamesView;

    closed spec fn view(&self) -> NamesView {
        NamesView { names: text_views(self.names@), spent: self.spent@ }
    }
}

/// Where the last dot of a name stands, or -1.
pub open spec fn last_dot(name: Seq<char>) -> int
    decreases name.len(),
{
    if name.len() == 0 {
        -1
    } else if name.last() == '.' {
        name.len() - 1
    } else {
        last_dot(name.drop_last())
    }
}

/// Whether a text is digits alone.
pub open spec fn all_digits(text: Seq<char>) -> bool {
    forall|i: int| 0 <= i < text.len() ==> '0' <= #[trigger] text[i] && text[i] <= '9'
}

/// A name without the number it was versioned with.
pub open spec fn stem_of(name: Seq<char>) -> Seq<char> {
    let dot = last_dot(name);
    if dot >= 0 && all_digits(name.subrange(dot + 1, name.len() as int)) {
        name.take(dot)
    } else {
        name
    }
}

/// A stem with a number behind it.
pub open spec fn versioned(stem: Seq<char>, suffix: nat) -> Seq<char> {
    stem.push('.') + decimal_nat(suffix)
}

/// Whether `suffix` is the first number from one up that makes a free name.
pub open spec fn is_first_free(names: Seq<Seq<char>>, stem: Seq<char>, suffix: nat) -> bool {
    &&& suffix >= 1
    &&& !names.contains(versioned(stem, suffix))
    &&& forall|k: nat| 1 <= k < suffix ==> names.contains(#[trigger] versioned(stem, k))
}

/// The name of a new version of a register: its stem with the first number that
/// is free.
pub open spec fn suffixed_name(names: Seq<Seq<char>>, of: VReg) -> Seq<char> {
    let stem = stem_of(names[of.0 as int]);
    versioned(stem, choose|suffix: nat| is_first_free(names, stem, suffix))
}

proof fn first_free_is(names: Seq<Seq<char>>, stem: Seq<char>, suffix: nat)
    requires
        is_first_free(names, stem, suffix),
    ensures
        (choose|suffix: nat| is_first_free(names, stem, suffix)) == suffix,
{
    let other = choose|suffix: nat| is_first_free(names, stem, suffix);
    if other < suffix {
        assert(names.contains(versioned(stem, other)));
    } else if suffix < other {
        assert(names.contains(versioned(stem, suffix)));
    }
}

proof fn versions_differ(stem: Seq<char>, a: nat, b: nat)
    requires
        versioned(stem, a) == versioned(stem, b),
    ensures
        a == b,
{
    let n = stem.len() as int + 1;
    assert(versioned(stem, a).subrange(n, versioned(stem, a).len() as int) =~= decimal_nat(a));
    assert(versioned(stem, b).subrange(n, versioned(stem, b).len() as int) =~= decimal_nat(b));
    decimal_is_one_to_one(a, b);
}

/// The first versions of a stem.
spec fn versions(stem: Seq<char>, n: nat) -> Set<Seq<char>>
    decreases n,
{
    if n == 0 {
        Set::empty()
    } else {
        versions(stem, (n - 1) as nat).insert(versioned(stem, n))
    }
}

proof fn versions_counted(stem: Seq<char>, n: nat)
    ensures
        versions(stem, n).finite(),
        versions(stem, n).len() == n,
        forall|name: Seq<char>| #[trigger]
            versions(stem, n).contains(name) ==> exists|k: nat|
                1 <= k <= n && name == #[trigger] versioned(stem, k),
    decreases n,
{
    if n > 0 {
        let rest = versions(stem, (n - 1) as nat);
        versions_counted(stem, (n - 1) as nat);
        if rest.contains(versioned(stem, n)) {
            let k = choose|k: nat|
                1 <= k <= n - 1 && versioned(stem, n) == #[trigger] versioned(stem, k);
            versions_differ(stem, n, k);
        }
        assert forall|name: Seq<char>| #[trigger] versions(stem, n).contains(name) implies exists|
            k: nat,
        |
            1 <= k <= n && name == #[trigger] versioned(stem, k) by {
            if rest.contains(name) {
                let k = choose|k: nat| 1 <= k <= n - 1 && name == #[trigger] versioned(stem, k);
                assert(1 <= k <= n && name == versioned(stem, k));
            } else {
                assert(name == versioned(stem, n));
            }
        }
    }
}

/// There are no more versions taken than there are names.
proof fn taken_versions_run_out(names: Seq<Seq<char>>, stem: Seq<char>, n: nat)
    requires
        forall|k: nat| 1 <= k <= n ==> names.contains(#[trigger] versioned(stem, k)),
    ensures
        n <= names.len(),
{
    versions_counted(stem, n);
    names.lemma_cardinality_of_set();
    let taken = names.to_set();
    assert(versions(stem, n).subset_of(taken)) by {
        assert forall|name: Seq<char>| versions(stem, n).contains(name) implies taken.contains(
            name,
        ) by {
            let k = choose|k: nat| 1 <= k <= n && name == #[trigger] versioned(stem, k);
            assert(names.contains(versioned(stem, k)));
        }
    }
    vstd::set_lib::lemma_len_subset(versions(stem, n), taken);
}

impl NamesView {
    /// With a register of this name.
    pub open spec fn pushed(self, name: Seq<char>) -> NamesView {
        NamesView { names: self.names.push(name), ..self }
    }

    /// The register the next name is given to.
    pub open spec fn fresh(self) -> VReg {
        VReg(self.names.len() as u32)
    }

    /// With a register for one definition of the variable `of` names.
    pub open spec fn version(self, of: VReg) -> NamesView {
        if self.spent[of.0 as int] {
            self.pushed(suffixed_name(self.names, of))
        } else {
            NamesView {
                names: self.names.push(self.names[of.0 as int]),
                spent: self.spent.update(of.0 as int, true),
            }
        }
    }

    /// With a register holding a copy of what `reg` holds.
    pub open spec fn copy_of(self, reg: VReg) -> NamesView {
        self.pushed(suffixed_name(self.names, reg))
    }

    /// The names a function starts with.
    pub open spec fn of(names: Seq<Seq<char>>) -> NamesView {
        NamesView { names, spent: Seq::new(names.len(), |i: int| false) }
    }
}

impl Names {
    /// Take a function's names, to be given back by [`Names::finish`].
    pub fn of(function: &mut Function) -> (names: Names)
        ensures
            names@ == NamesView::of(old(function)@.names),
            final(function)@ == (FunctionView { names: seq![], ..old(function)@ }),
            final(function).blocks == old(function).blocks,
            final(function).params == old(function).params,
    {
        let mut names: Vec<String> = Vec::new();
        std::mem::swap(&mut names, &mut function.vreg_names);
        let mut spent: Vec<bool> = Vec::new();
        let mut i: usize = 0;
        while i < names.len()
            invariant
                i <= names@.len(),
                spent@.len() == i,
                forall|k: int| 0 <= k < i ==> !spent@[k],
            decreases names@.len() - i,
        {
            spent.push(false);
            i = i + 1;
        }
        let taken = Names { names, spent };
        proof {
            assert(text_views(function.vreg_names@) =~= seq![]);
            assert(taken@ =~= NamesView::of(old(function)@.names));
        }
        taken
    }

    /// A register for one definition of the variable `of` names.
    ///
    /// The first one takes the variable's name outright — nothing refers to the
    /// original once renaming is done, so the name is free — and every one
    /// after it is suffixed.
    pub fn version(&mut self, of: VReg) -> (fresh: VReg)
        requires
            of.0 < old(self)@.spent.len(),
            old(self)@.spent.len() <= old(self)@.names.len(),
            old(self)@.names.len() < u32::MAX,
        ensures
            fresh == old(self)@.fresh(),
            final(self)@ == old(self)@.version(of),
    {
        if self.spent[of.0 as usize] {
            self.suffixed(of)
        } else {
            self.spent.set(of.0 as usize, true);
            assert(self@.names =~= old(self)@.names);
            let name: String = self.names[of.0 as usize].as_str().to_owned();
            self.push(name)
        }
    }

    /// A register holding a copy of what `reg` holds. Always a new name: `reg`
    /// is still live, so it still needs its own.
    pub fn copy_of(&mut self, reg: VReg) -> (fresh: VReg)
        requires
            reg.0 < old(self)@.names.len(),
            old(self)@.names.len() < u32::MAX,
        ensures
            fresh == old(self)@.fresh(),
            final(self)@ == old(self)@.copy_of(reg),
    {
        self.suffixed(reg)
    }

    /// How many registers have a name.
    pub fn count(&self) -> (count: usize)
        ensures
            count == self@.names.len(),
    {
        self.names.len()
    }

    pub fn finish(self) -> (names: Vec<String>)
        ensures
            text_views(names@) == self@.names,
    {
        self.names
    }

    fn suffixed(&mut self, of: VReg) -> (fresh: VReg)
        requires
            of.0 < old(self)@.names.len(),
            old(self)@.names.len() < u32::MAX,
        ensures
            fresh == old(self)@.fresh(),
            final(self)@ == old(self)@.pushed(suffixed_name(old(self)@.names, of)),
    {
        let ghost names = self@.names;
        let stem: String = stem(self.names[of.0 as usize].as_str());
        let mut suffix: u64 = 1;
        let mut candidate: String = candidate(stem.as_str(), suffix);
        while self.taken(&candidate)
            invariant
                self@ == old(self)@,
                names == self@.names,
                names.len() < u32::MAX,
                1 <= suffix <= names.len() + 1,
                stem@ == stem_of(names[of.0 as int]),
                candidate@ == versioned(stem@, suffix as nat),
                forall|k: nat| 1 <= k < suffix ==> names.contains(#[trigger] versioned(stem@, k)),
            decreases names.len() + 1 - suffix,
        {
            proof {
                taken_versions_run_out(names, stem@, suffix as nat);
            }
            suffix = suffix + 1;
            candidate = self::candidate(stem.as_str(), suffix);
        }
        proof {
            first_free_is(names, stem@, suffix as nat);
        }
        self.push(candidate)
    }

    /// Whether a register goes by this name already.
    fn taken(&self, name: &String) -> (taken: bool)
        ensures
            taken == self@.names.contains(name@),
    {
        let mut i: usize = 0;
        while i < self.names.len()
            invariant
                i <= self.names@.len(),
                forall|k: int| 0 <= k < i ==> self@.names[k] != name@,
            decreases self.names@.len() - i,
        {
            assert(self@.names[i as int] == self.names@[i as int]@);
            if self.names[i] == *name {
                return true;
            }
            i = i + 1;
        }
        false
    }

    fn push(&mut self, name: String) -> (fresh: VReg)
        requires
            old(self)@.names.len() < u32::MAX,
        ensures
            fresh == old(self)@.fresh(),
            final(self)@ == old(self)@.pushed(name@),
    {
        let fresh = VReg(self.names.len() as u32);
        self.names.push(name);
        assert(self@.names =~= old(self)@.names.push(name@));
        fresh
    }
}

/// A stem with a number behind it.
fn candidate(stem: &str, suffix: u64) -> (name: String)
    ensures
        name@ == versioned(stem@, suffix as nat),
{
    let mut name: String = stem.to_owned();
    name.push('.');
    push_decimal_u64(&mut name, suffix);
    name
}

/// A name without the number it was versioned with.
fn stem(name: &str) -> (stem: String)
    ensures
        stem@ == stem_of(name@),
{
    let chars: Vec<char> = chars_of(name);
    let count: usize = chars.len();
    assert(chars@.take(count as int) =~= chars@);
    let mut end: usize = count;
    let mut digits: bool = true;
    while end > 0
        invariant
            end <= count == chars@.len(),
            chars@ == name@,
            last_dot(chars@) == last_dot(chars@.take(end as int)),
            digits == all_digits(chars@.subrange(end as int, count as int)),
        decreases end,
    {
        let c: char = chars[end - 1];
        let ghost part = chars@.take(end as int);
        assert(part.last() == c);
        if c == '.' {
            assert(last_dot(chars@) == end - 1);
            if digits {
                assert(chars@.subrange(0, end - 1) =~= chars@.take(end - 1));
                return text_between(&chars, 0, end - 1);
            }
            return name.to_owned();
        }
        assert(part.drop_last() =~= chars@.take(end - 1));
        let ghost was = chars@.subrange(end as int, count as int);
        let ghost now = chars@.subrange(end - 1, count as int);
        proof {
            assert(now =~= seq![c] + was);
            if '0' <= c && c <= '9' && digits {
                assert forall|i: int| 0 <= i < now.len() implies '0' <= #[trigger] now[i] && now[i]
                    <= '9' by {
                    if i > 0 {
                        assert(now[i] == was[i - 1]);
                    }
                }
            }
            if all_digits(now) {
                assert(now[0] == c);
                assert forall|i: int| 0 <= i < was.len() implies '0' <= #[trigger] was[i] && was[i]
                    <= '9' by {
                    assert(now[i + 1] == was[i]);
                }
            }
        }
        digits = digits && '0' <= c && c <= '9';
        end = end - 1;
    }
    name.to_owned()
}

} // verus!
