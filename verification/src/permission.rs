//! Permission levels and their composition.
//!
//! Every registered permission filter contributes one [`PermissionLevel`] for
//! a given (key, context) pair. The effective permission is the minimum (most
//! restrictive) of all contributions, starting from `Allow` when no filter is
//! registered. A filter whose key type does not match the incoming key
//! abstains by contributing `Allow`.

use vstd::prelude::*;

verus! {

/// Access level computed by the permission pipeline for one (key, context)
/// pair. Levels are totally ordered: `Deny < ReadOnly < Allow`.
#[derive(Clone, Copy, Debug, PartialEq, Eq, Structural)]
pub enum PermissionLevel {
    Deny,
    ReadOnly,
    Allow,
}

impl PermissionLevel {
    /// Rank of the level in the total order `Deny < ReadOnly < Allow`.
    pub open spec fn rank(self) -> int {
        match self {
            PermissionLevel::Deny => 0,
            PermissionLevel::ReadOnly => 1,
            PermissionLevel::Allow => 2,
        }
    }

    pub open spec fn spec_le(self, other: Self) -> bool {
        self.rank() <= other.rank()
    }

    /// The more restrictive of two levels.
    pub open spec fn spec_meet(self, other: Self) -> Self {
        if self.rank() <= other.rank() {
            self
        } else {
            other
        }
    }

    /// Combines two levels into the more restrictive one.
    pub fn meet(self, other: Self) -> (r: Self)
        ensures
            r == self.spec_meet(other),
    {
        match (self, other) {
            (PermissionLevel::Deny, _) => PermissionLevel::Deny,
            (_, PermissionLevel::Deny) => PermissionLevel::Deny,
            (PermissionLevel::ReadOnly, _) => PermissionLevel::ReadOnly,
            (_, PermissionLevel::ReadOnly) => PermissionLevel::ReadOnly,
            _ => PermissionLevel::Allow,
        }
    }

    pub open spec fn spec_can_subscribe(self) -> bool {
        self.rank() >= 1
    }

    /// Subscribing to a topic requires at least read access.
    #[verifier::when_used_as_spec(spec_can_subscribe)]
    pub fn can_subscribe(self) -> (r: bool)
        ensures
            r == self.spec_can_subscribe(),
    {
        match self {
            PermissionLevel::Deny => false,
            _ => true,
        }
    }

    pub open spec fn spec_can_send(self) -> bool {
        self.rank() == 2
    }

    /// Publishing to a topic requires full access.
    #[verifier::when_used_as_spec(spec_can_send)]
    pub fn can_send(self) -> (r: bool)
        ensures
            r == self.spec_can_send(),
    {
        match self {
            PermissionLevel::Allow => true,
            _ => false,
        }
    }
}

/// Folds a sequence of filter contributions with `spec_meet`, starting from
/// `Allow`. This is the effective permission of the whole pipeline.
pub open spec fn spec_evaluate(levels: Seq<PermissionLevel>) -> PermissionLevel
    decreases levels.len(),
{
    if levels.len() == 0 {
        PermissionLevel::Allow
    } else {
        spec_evaluate(levels.drop_last()).spec_meet(levels.last())
    }
}

/// Computes the effective permission from the ordered contributions of all
/// registered filters. No contributions means `Allow`.
pub fn evaluate(levels: &Vec<PermissionLevel>) -> (r: PermissionLevel)
    ensures
        r == spec_evaluate(levels@),
{
    let mut acc = PermissionLevel::Allow;
    let mut i: usize = 0;
    while i < levels.len()
        invariant
            i <= levels@.len(),
            acc == spec_evaluate(levels@.take(i as int)),
        decreases levels@.len() - i,
    {
        assert(levels@.take(i + 1).drop_last() =~= levels@.take(i as int));
        assert(levels@.take(i + 1).last() == levels@[i as int]);
        acc = acc.meet(levels[i]);
        i = i + 1;
    }
    assert(levels@.take(levels@.len() as int) =~= levels@);
    acc
}

/// Permission filters compose via the minimum: the effective permission is a
/// lower bound of every contribution, it is `Allow` exactly when no filter
/// restricts, and (for a non-empty pipeline) it equals one of the
/// contributions. In particular a `ReadOnly` filter beside an `Allow` filter
/// yields `ReadOnly`, and a `Deny` filter beside any combination yields
/// `Deny`.
pub proof fn lemma_evaluate_is_minimum(levels: Seq<PermissionLevel>)
    ensures
        forall|i: int|
            0 <= i < levels.len() ==> spec_evaluate(levels).spec_le(#[trigger] levels[i]),
        levels.len() == 0 ==> spec_evaluate(levels) == PermissionLevel::Allow,
        levels.len() > 0 ==> exists|i: int|
            0 <= i < levels.len() && spec_evaluate(levels) == levels[i],
    decreases levels.len(),
{
    if levels.len() > 0 {
        lemma_evaluate_is_minimum(levels.drop_last());
        let prefix = levels.drop_last();
        assert(forall|i: int| 0 <= i < prefix.len() ==> prefix[i] == levels[i]);
        if prefix.len() > 0 {
            let j = choose|j: int|
                0 <= j < prefix.len() && spec_evaluate(prefix) == prefix[j];
            if spec_evaluate(levels) == spec_evaluate(prefix) {
                assert(spec_evaluate(levels) == levels[j]);
            } else {
                assert(spec_evaluate(levels) == levels[levels.len() - 1]);
            }
        }
    }
}

/// A single `Deny` contribution forces the effective permission to `Deny`,
/// whatever the other filters contribute.
pub proof fn lemma_deny_dominates(levels: Seq<PermissionLevel>, i: int)
    requires
        0 <= i < levels.len(),
        levels[i] == PermissionLevel::Deny,
    ensures
        spec_evaluate(levels) == PermissionLevel::Deny,
{
    lemma_evaluate_is_minimum(levels);
    assert(spec_evaluate(levels).spec_le(levels[i]));
}

} // verus!
