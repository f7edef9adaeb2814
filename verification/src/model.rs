//! The values a package diff is made of: versions with amounts, the change
//! of one version, and the change of one package.
use vstd::prelude::*;
use crate::version::Version;

verus! {

/// A version together with how many times it occurs.
///
/// The amount is at least one.
#[derive(Debug, Clone, PartialEq, Eq)]
pub struct VersionAmount {
    pub version: Version,
    pub amount: usize,
}

impl View for VersionAmount {
    type V = (Seq<char>, nat);

    open spec fn view(&self) -> (Seq<char>, nat) {
        (self.version@, self.amount as nat)
    }
}

/// A copy of a version, with the same text.
pub fn copy_version(v: &Version) -> (r: Version)
    ensures
        r@ == v@,
{
    Version { name: v.name.clone() }
}

impl VersionAmount {
    /// Whether the amount is at least one.
    pub open spec fn wf(&self) -> bool {
        self.amount >= 1
    }

    pub fn new(version: Version, amount: usize) -> (r: VersionAmount)
        requires
            amount >= 1,
        ensures
            r@ == (version@, amount as nat),
            r.wf(),
    {
        VersionAmount { version, amount }
    }

    /// A version amount, or `None` where the amount is zero.
    pub fn try_new(version: Version, amount: usize) -> (r: Option<VersionAmount>)
        ensures
            amount == 0 ==> r.is_none(),
            amount != 0 ==> r is Some && r->0@ == (version@, amount as nat) && r->0.wf(),
    {
        if amount == 0 {
            None
        } else {
            Some(VersionAmount::new(version, amount))
        }
    }

    /// A copy with the same version text and amount.
    pub fn copy(&self) -> (r: VersionAmount)
        ensures
            r@ == self@,
            r.amount == self.amount,
    {
        VersionAmount { version: copy_version(&self.version), amount: self.amount }
    }
}

/// How one version of a package changed.
#[derive(Debug, Clone, PartialEq, Eq)]
pub enum VersionDiff {
    Removed(VersionAmount),
    Added(VersionAmount),
    Changed { old: VersionAmount, new: VersionAmount },
    AmountChanged { version: Version, old_amount: usize, new_amount: usize },
}

/// The view of a version change.
pub ghost enum VersionDiffView {
    Removed((Seq<char>, nat)),
    Added((Seq<char>, nat)),
    Changed((Seq<char>, nat), (Seq<char>, nat)),
    AmountChanged(Seq<char>, nat, nat),
}

impl View for VersionDiff {
    type V = VersionDiffView;

    open spec fn view(&self) -> VersionDiffView {
        match self {
            VersionDiff::Removed(a) => VersionDiffView::Removed(a@),
            VersionDiff::Added(a) => VersionDiffView::Added(a@),
            VersionDiff::Changed { old, new } => VersionDiffView::Changed(old@, new@),
            VersionDiff::AmountChanged { version, old_amount, new_amount } =>
                VersionDiffView::AmountChanged(version@, *old_amount as nat, *new_amount as nat),
        }
    }
}

/// The kind of change of a package.
#[derive(Debug, Clone, Copy, PartialEq, Eq, Structural, PartialOrd, Ord)]
pub enum DiffStatus {
    Changed,
    Mixed,
    Upgraded,
    Downgraded,
    Added,
    Removed,
}

/// The change of one package between two snapshots.
#[derive(Debug, PartialEq, Eq)]
pub struct Diff {
    pub name: String,
    pub versions: Vec<VersionDiff>,
    pub status: DiffStatus,
    pub has_omitted_versions: bool,
}

/// The view of a package change.
pub ghost struct DiffView {
    pub name: Seq<char>,
    pub versions: Seq<VersionDiffView>,
    pub status: DiffStatus,
    pub has_omitted_versions: bool,
}

impl View for Diff {
    type V = DiffView;

    open spec fn view(&self) -> DiffView {
        DiffView {
            name: self.name@,
            versions: self.versions@.map_values(|d: VersionDiff| d@),
            status: self.status,
            has_omitted_versions: self.has_omitted_versions,
        }
    }
}

} // verus!
