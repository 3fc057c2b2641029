//! What the player has done: completed levels and unlocked mechanics.
use vstd::prelude::*;
use core::cmp::Ordering;
use vstd::string::StringExecFns;

verus! {

/// How far the player has come in unlocking the game's mechanics.
#[derive(Debug, Clone, Copy, PartialEq, Eq, Structural, PartialOrd, Ord, Hash)]
pub enum UnlockState {
    /// Nothing unlocked yet.
    Nothing,
    CaseTree,
    Lemmas,
}

/// A set of unlocked mechanics, one bit each.
#[derive(Debug, Clone, Copy, PartialEq, Eq, Structural, Hash)]
pub struct Unlocks(pub u8);

impl Unlocks {
    /// Nothing unlocked.
    pub fn none() -> (r: Unlocks)
        ensures
            r.0 == 0,
    {
        Unlocks(0)
    }

    /// Everything unlocked.
    pub fn all() -> (r: Unlocks)
        ensures
            r.0 == 255,
    {
        Unlocks(255)
    }

    /// The case tree.
    pub fn cases() -> (r: Unlocks)
        ensures
            r.0 == 1,
    {
        Unlocks(1)
    }

    /// Free-form lemmas: committing to prove any wire.
    pub fn lemmas() -> (r: Unlocks)
        ensures
            r.0 == 2,
    {
        Unlocks(2)
    }

    /// Applying proven theorems.
    pub fn theorem_application() -> (r: Unlocks)
        ensures
            r.0 == 4,
    {
        Unlocks(4)
    }

    /// Every mechanic of `o` is unlocked in `self`.
    pub open spec fn includes(self, o: Unlocks) -> bool {
        o.0 & !self.0 == 0
    }

    /// The mechanics of both.
    pub fn union(self, o: Unlocks) -> (r: Unlocks)
        ensures
            r.0 == self.0 | o.0,
    {
        Unlocks(self.0 | o.0)
    }

    /// Whether every mechanic of `o` is unlocked in `self`.
    pub fn contains(self, o: Unlocks) -> (r: bool)
        ensures
            r == self.includes(o),
    {
        o.0 & !self.0 == 0
    }
}

impl Default for Unlocks {
    fn default() -> (r: Unlocks)
        ensures
            r.0 == 0,
    {
        Unlocks::none()
    }
}

impl core::ops::BitOr for Unlocks {
    type Output = Unlocks;

    fn bitor(self, rhs: Unlocks) -> (r: Unlocks) {
        self.union(rhs)
    }
}

impl vstd::std_specs::ops::BitOrSpecImpl for Unlocks {
    open spec fn obeys_bitor_spec() -> bool {
        true
    }

    open spec fn bitor_req(self, rhs: Unlocks) -> bool {
        true
    }

    open spec fn bitor_spec(self, rhs: Unlocks) -> Unlocks {
        Unlocks(self.0 | rhs.0)
    }
}

impl core::ops::BitOrAssign for Unlocks {
    fn bitor_assign(&mut self, rhs: Unlocks) {
        *self = self.union(rhs);
    }
}

/// The order of inclusion between sets of mechanics.
pub open spec fn unlocks_order(a: Unlocks, b: Unlocks) -> Option<Ordering> {
    if a.includes(b) && b.includes(a) {
        Some(Ordering::Equal)
    } else if b.includes(a) {
        Some(Ordering::Less)
    } else if a.includes(b) {
        Some(Ordering::Greater)
    } else {
        None
    }
}

impl PartialOrd for Unlocks {
    fn partial_cmp(&self, other: &Unlocks) -> (r: Option<Ordering>) {
        let le = other.contains(*self);
        let ge = self.contains(*other);
        if le && ge {
            Some(Ordering::Equal)
        } else if le {
            Some(Ordering::Less)
        } else if ge {
            Some(Ordering::Greater)
        } else {
            None
        }
    }
}

impl vstd::std_specs::cmp::PartialOrdSpecImpl for Unlocks {
    open spec fn obeys_partial_cmp_spec() -> bool {
        true
    }

    open spec fn partial_cmp_spec(&self, other: &Unlocks) -> Option<Ordering> {
        unlocks_order(*self, *other)
    }
}

/// The mechanics that a name in a level or save file stands for.
pub open spec fn name_bits(n: Seq<char>) -> u8 {
    if n == "cases"@ {
        1
    } else if n == "lemmas"@ {
        2
    } else if n == "theorem-application"@ {
        4
    } else if n == "everything"@ {
        255
    } else {
        0
    }
}

/// The mechanics that a list of names stands for together.
pub open spec fn names_bits(ns: Seq<String>) -> u8
    decreases ns.len(),
{
    if ns.len() == 0 {
        0
    } else {
        names_bits(ns.drop_last()) | name_bits(ns.last()@)
    }
}

/// The names of the mechanics wholly contained in `u`, in a fixed order.
pub open spec fn names_of(u: Unlocks) -> Seq<Seq<char>> {
    let one = |b: u8, n: Seq<char>| if u.includes(Unlocks(b)) {
        seq![n]
    } else {
        Seq::empty()
    };
    one(1, "cases"@) + one(2, "lemmas"@) + one(4, "theorem-application"@) + one(255, "everything"@)
}

/// The view of each string of a list.
pub open spec fn views_of(v: Seq<String>) -> Seq<Seq<char>> {
    v.map_values(|s: String| s@)
}

fn name_to_bits(n: &String) -> (r: u8)
    ensures
        r == name_bits(n@),
{
    proof {
        reveal_strlit("cases");
        reveal_strlit("lemmas");
        reveal_strlit("theorem-application");
        reveal_strlit("everything");
    }
    if *n == String::from_str("cases") {
        1
    } else if *n == String::from_str("lemmas") {
        2
    } else if *n == String::from_str("theorem-application") {
        4
    } else if *n == String::from_str("everything") {
        255
    } else {
        0
    }
}

impl Unlocks {
    /// The mechanics that `names` stand for; unknown names stand for none.
    pub fn from_names(names: &Vec<String>) -> (r: Unlocks)
        ensures
            r.0 == names_bits(names@),
    {
        let mut bits: u8 = 0;
        let mut k: usize = 0;
        while k < names.len()
            invariant
                k <= names@.len(),
                bits == names_bits(names@.take(k as int)),
            decreases names@.len() - k,
        {
            let b = name_to_bits(&names[k]);
            proof {
                assert(names@.take(k + 1).drop_last() =~= names@.take(k as int));
                assert(names@.take(k + 1).last() == names@[k as int]);
            }
            bits = bits | b;
            k = k + 1;
        }
        proof {
            assert(names@.take(k as int) =~= names@);
        }
        Unlocks(bits)
    }

    /// The names of the mechanics wholly contained in `self`.
    pub fn names(self) -> (r: Vec<String>)
        ensures
            views_of(r@) == names_of(self),
    {
        let mut out: Vec<String> = Vec::new();
        if self.contains(Unlocks(1)) {
            out.push(String::from_str("cases"));
        }
        if self.contains(Unlocks(2)) {
            out.push(String::from_str("lemmas"));
        }
        if self.contains(Unlocks(4)) {
            out.push(String::from_str("theorem-application"));
        }
        if self.contains(Unlocks(255)) {
            out.push(String::from_str("everything"));
        }
        proof {
            assert(views_of(out@) =~= names_of(self));
        }
        out
    }
}

/// Which levels the player has completed, and what they have unlocked.
pub struct SaveData {
    unlocks: Unlocks,
    completed: Vec<bool>,
}

impl SaveData {
    pub closed spec fn unlocked(&self) -> Unlocks {
        self.unlocks
    }

    /// Completion of each level.
    pub closed spec fn levels(&self) -> Seq<bool> {
        self.completed@
    }

    /// Nothing done yet, in a game of `num_levels` levels.
    pub fn new(num_levels: usize) -> (r: SaveData)
        ensures
            r.unlocked().0 == 0,
            r.levels() == Seq::new(num_levels as nat, |i: int| false),
    {
        let mut completed: Vec<bool> = Vec::new();
        let mut k: usize = 0;
        while k < num_levels
            invariant
                k <= num_levels,
                completed@ == Seq::new(k as nat, |i: int| false),
            decreases num_levels - k,
        {
            completed.push(false);
            k = k + 1;
            assert(completed@ =~= Seq::new(k as nat, |i: int| false));
        }
        SaveData { unlocks: Unlocks::none(), completed }
    }

    /// Rebuilds save data from its parts.
    pub fn from_parts(unlocks: Unlocks, completed: Vec<bool>) -> (r: SaveData)
        ensures
            r.unlocked() == unlocks,
            r.levels() == completed@,
    {
        SaveData { unlocks, completed }
    }

    /// How many levels the save data covers.
    pub fn num_levels(&self) -> (r: usize)
        ensures
            r == self.levels().len(),
    {
        self.completed.len()
    }

    pub fn completed(&self, level: usize) -> (r: bool)
        requires
            level < self.levels().len(),
        ensures
            r == self.levels()[level as int],
    {
        self.completed[level]
    }

    /// Marks `level` completed; returns whether that changed anything.
    pub fn mark_completed(&mut self, level: usize) -> (r: bool)
        requires
            level < old(self).levels().len(),
        ensures
            r == !old(self).levels()[level as int],
            final(self).levels() == old(self).levels().update(level as int, true),
            final(self).unlocked() == old(self).unlocked(),
    {
        let was = self.completed[level];
        self.completed.set(level, true);
        !was
    }

    pub fn unlocks(&self) -> (r: Unlocks)
        ensures
            r == self.unlocked(),
    {
        self.unlocks
    }

    /// Adds the mechanics of `unlock` to those unlocked.
    pub fn set_unlocked(&mut self, unlock: Unlocks)
        ensures
            final(self).unlocked().0 == old(self).unlocked().0 | unlock.0,
            final(self).levels() == old(self).levels(),
    {
        self.unlocks = self.unlocks.union(unlock);
    }
}

} // verus!
