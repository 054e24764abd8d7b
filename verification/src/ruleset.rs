//! The declarative ruleset: named groups of packages and the rules over them.

pub use crate::adjacency::AdjacencyMap;
pub use crate::dependency::{Dependency, DependencyIndex, DependencyProperty};
pub use crate::group::GroupIndex;
pub use crate::package::Package;
use vstd::prelude::*;

verus! {

/// What the index knows of one package name.
pub type DependencyProp = DependencyProperty;

/// A named list of package names that a rule treats as one alternative.
#[derive(Debug)]
pub struct Group {
    pub name: String,
    /// The package names, in the order the ruleset lists them.
    pub members: Vec<String>,
}

/// What a rule demands of its target groups.
#[derive(Debug, Clone, Copy, PartialEq, Eq, Structural)]
pub enum RuleType {
    /// Exactly one of the target groups may be present in the graph.
    OneOf,
    AtLeastOne,
    AtMostOne,
    Requires,
    Forbids,
}

/// Which dependencies a rule looks at.
#[derive(Debug, Clone, Copy, PartialEq, Eq, Structural)]
pub enum RuleScope {
    All,
    Direct,
    Transitive,
}

/// How much a violation of a rule weighs.
#[derive(Debug, Clone, Copy, PartialEq, Eq, Structural)]
pub enum RuleSeverity {
    Fatal,
    Warning,
    Info,
}

/// One rule of the ruleset.
#[derive(Debug)]
pub struct Rule {
    pub id: String,
    pub name: String,
    pub _type: RuleType,
    /// The names of the groups the rule is about, in declared order.
    pub targets: Vec<String>,
    pub severity: RuleSeverity,
    pub reason: String,
    pub scope: RuleScope,
    pub suggestion: Option<String>,
}

/// The groups and rules that one run enforces. A ruleset is well formed when
/// no two of its groups bear one name.
#[derive(Debug)]
pub struct Ruleset {
    /// The groups, in declared order.
    pub groups: Vec<Group>,
    pub rules: Vec<Rule>,
}

impl Ruleset {
    /// No two groups bear one name.
    pub open spec fn wf(&self) -> bool {
        forall|i: int, j: int|
            0 <= i < j < self.groups@.len() ==> (#[trigger] self.groups@[i]).name@ != (
            #[trigger] self.groups@[j]).name@
    }

    /// Checks that no two groups bear one name.
    pub fn is_well_formed(&self) -> (ok: bool)
        ensures
            ok == self.wf(),
    {
        let mut j: usize = 0;
        while j < self.groups.len()
            invariant
                j <= self.groups@.len(),
                forall|a: int, b: int|
                    0 <= a < b < j ==> (#[trigger] self.groups@[a]).name@ != (
                    #[trigger] self.groups@[b]).name@,
            decreases self.groups@.len() - j,
        {
            let mut i: usize = 0;
            while i < j
                invariant
                    i <= j < self.groups@.len(),
                    forall|a: int| 0 <= a < i ==> (#[trigger] self.groups@[a]).name@
                        != self.groups@[j as int].name@,
                decreases j - i,
            {
                if self.groups[i].name == self.groups[j].name {
                    return false;
                }
                i += 1;
            }
            j += 1;
        }
        true
    }
}

/// Where the evaluation of a `OneOf` rule stands.
#[derive(Debug, Clone, Copy, PartialEq, Eq, Structural)]
pub enum RuleState {
    /// Exactly one target group was found so far.
    NoConflict,
    /// A second target group was found.
    Conflict,
    /// No target group was found so far.
    NoGroupFound,
}

impl RuleState {
    /// The state after one more target group, which is `present` in the
    /// graph or not. `Conflict` is final.
    pub open spec fn step(self, present: bool) -> RuleState {
        match self {
            RuleState::NoGroupFound => if present {
                RuleState::NoConflict
            } else {
                RuleState::NoGroupFound
            },
            RuleState::NoConflict => if present {
                RuleState::Conflict
            } else {
                RuleState::NoConflict
            },
            RuleState::Conflict => RuleState::Conflict,
        }
    }

    /// The state after the target groups of which `present` says, in declared
    /// order, whether each is present in the graph.
    pub open spec fn after(present: Seq<bool>) -> RuleState
        decreases present.len(),
    {
        if present.len() == 0 {
            RuleState::NoGroupFound
        } else {
            Self::after(present.drop_last()).step(present.last())
        }
    }

    pub fn is_conflict(self) -> (conflict: bool)
        ensures
            conflict == (self == RuleState::Conflict),
    {
        self == RuleState::Conflict
    }

    /// Moves on by one target group.
    pub fn advance(self, present: bool) -> (next: RuleState)
        ensures
            next == self.step(present),
    {
        match self {
            RuleState::NoGroupFound => if present {
                RuleState::NoConflict
            } else {
                RuleState::NoGroupFound
            },
            RuleState::NoConflict => if present {
                RuleState::Conflict
            } else {
                RuleState::NoConflict
            },
            RuleState::Conflict => RuleState::Conflict,
        }
    }
}

/// How many entries of `present` are `true`.
pub open spec fn count_present(present: Seq<bool>) -> nat
    decreases present.len(),
{
    if present.len() == 0 {
        0
    } else {
        count_present(present.drop_last()) + if present.last() {
            1nat
        } else {
            0nat
        }
    }
}

/// The state of a `OneOf` rule tells how many of its target groups are
/// present: none, exactly one, or at least two.
pub proof fn lemma_state_counts(present: Seq<bool>)
    ensures
        RuleState::after(present) == RuleState::NoGroupFound <==> count_present(present) == 0,
        RuleState::after(present) == RuleState::NoConflict <==> count_present(present) == 1,
        RuleState::after(present) == RuleState::Conflict <==> count_present(present) >= 2,
    decreases present.len(),
{
    if present.len() > 0 {
        lemma_state_counts(present.drop_last());
    }
}

/// Once a rule is in conflict, no further target group changes that.
pub proof fn lemma_conflict_is_final(present: Seq<bool>, more: Seq<bool>)
    requires
        RuleState::after(present) == RuleState::Conflict,
    ensures
        RuleState::after(present + more) == RuleState::Conflict,
    decreases more.len(),
{
    if more.len() == 0 {
        assert(present + more =~= present);
    } else {
        assert((present + more).drop_last() =~= present + more.drop_last());
        lemma_conflict_is_final(present, more.drop_last());
    }
}

} // verus!
