//! The shape of the JSON report: the values of a diff report laid out as
//! the JSON document names them, with sizes in bytes and each package's
//! size change.
use vstd::prelude::*;
use crate::model::{DiffStatus, VersionAmount, VersionDiff, VersionDiffView};
use crate::report::{DerivationSelectionStatus, DiffReport, PackageDiff, PackageDiffView, PathStats, package_diff_views};
use crate::version::Version;

verus! {

/// A version with its amount.
pub struct JsonVersionAmount {
    pub name: String,
    pub amount: usize,
}

/// A version.
pub struct JsonVersion {
    pub name: String,
}

/// How one version of a package changed.
pub enum JsonVersionDiff {
    Removed { version: JsonVersionAmount },
    Added { version: JsonVersionAmount },
    Changed { old: JsonVersionAmount, new: JsonVersionAmount },
    AmountChanged { version: JsonVersion, old_amount: usize, new_amount: usize },
}

impl View for JsonVersionDiff {
    type V = VersionDiffView;

    open spec fn view(&self) -> VersionDiffView {
        match self {
            JsonVersionDiff::Removed { version } => VersionDiffView::Removed((version.name@, version.amount as nat)),
            JsonVersionDiff::Added { version } => VersionDiffView::Added((version.name@, version.amount as nat)),
            JsonVersionDiff::Changed { old, new } => VersionDiffView::Changed(
                (old.name@, old.amount as nat),
                (new.name@, new.amount as nat),
            ),
            JsonVersionDiff::AmountChanged { version, old_amount, new_amount } => VersionDiffView::AmountChanged(
                version.name@,
                *old_amount as nat,
                *new_amount as nat,
            ),
        }
    }
}

/// The path counts of a report.
pub struct JsonPathStats {
    pub old: usize,
    pub new: usize,
    pub added: usize,
    pub removed: usize,
}

/// The change of one package, with its sizes and size change in bytes.
pub struct JsonDiff {
    pub name: String,
    pub versions: Vec<JsonVersionDiff>,
    pub status: DiffStatus,
    pub selection: DerivationSelectionStatus,
    pub has_omitted_versions: bool,
    pub size_old: i64,
    pub size_new: i64,
    pub size_delta: i64,
}

/// The view of a package change in the report.
pub ghost struct JsonDiffView {
    pub name: Seq<char>,
    pub versions: Seq<VersionDiffView>,
    pub status: DiffStatus,
    pub selection: DerivationSelectionStatus,
    pub has_omitted_versions: bool,
    pub size_old: int,
    pub size_new: int,
    pub size_delta: int,
}

impl View for JsonDiff {
    type V = JsonDiffView;

    open spec fn view(&self) -> JsonDiffView {
        JsonDiffView {
            name: self.name@,
            versions: self.versions@.map_values(|d: JsonVersionDiff| d@),
            status: self.status,
            selection: self.selection,
            has_omitted_versions: self.has_omitted_versions,
            size_old: self.size_old as int,
            size_new: self.size_new as int,
            size_delta: self.size_delta as int,
        }
    }
}

/// The JSON document of a diff report.
pub struct JsonReport {
    pub diffs: Vec<JsonDiff>,
    pub paths: JsonPathStats,
    pub size_old: i64,
    pub size_new: i64,
}

/// What the document says of a package change: the same name, version
/// changes, status, selection and omission, its sizes, and new minus old.
pub open spec fn json_diff(d: PackageDiffView) -> JsonDiffView {
    JsonDiffView {
        name: d.name,
        versions: d.versions,
        status: d.status,
        selection: d.selection,
        has_omitted_versions: d.has_omitted_versions,
        size_old: d.size.0,
        size_new: d.size.1,
        size_delta: d.size.1 - d.size.0,
    }
}

/// Whether each package's size change fits in `i64`.
pub open spec fn deltas_fit(ds: Seq<PackageDiffView>) -> bool {
    forall|k: int| 0 <= k < ds.len() ==> i64::MIN <= (#[trigger] ds[k]).size.1 - ds[k].size.0 <= i64::MAX
}

fn copy_name(v: &Version) -> (r: String)
    ensures
        r@ == v@,
{
    String::from_str(v.name.as_str())
}

fn json_amount(a: &VersionAmount) -> (r: JsonVersionAmount)
    ensures
        (r.name@, r.amount as nat) == a@,
{
    JsonVersionAmount { name: copy_name(&a.version), amount: a.amount }
}

/// The document's form of a version change.
pub fn json_version_diff(d: &VersionDiff) -> (r: JsonVersionDiff)
    ensures
        r@ == d@,
{
    match d {
        VersionDiff::Removed(a) => JsonVersionDiff::Removed { version: json_amount(a) },
        VersionDiff::Added(a) => JsonVersionDiff::Added { version: json_amount(a) },
        VersionDiff::Changed { old, new } => JsonVersionDiff::Changed { old: json_amount(old), new: json_amount(new) },
        VersionDiff::AmountChanged { version, old_amount, new_amount } => JsonVersionDiff::AmountChanged {
            version: JsonVersion { name: copy_name(version) },
            old_amount: *old_amount,
            new_amount: *new_amount,
        },
    }
}

/// The document's form of a package change.
pub fn json_package_diff(d: &PackageDiff) -> (r: JsonDiff)
    requires
        i64::MIN <= d@.size.1 - d@.size.0 <= i64::MAX,
    ensures
        r@ == json_diff(d@),
{
    let mut versions: Vec<JsonVersionDiff> = Vec::new();
    let mut k: usize = 0;
    while k < d.versions.len()
        invariant
            k <= d.versions@.len(),
            versions@.map_values(|v: JsonVersionDiff| v@) == d.versions@.map_values(|v: VersionDiff| v@).take(k as int),
        decreases d.versions@.len() - k,
    {
        let ghost before = versions@.map_values(|v: JsonVersionDiff| v@);
        versions.push(json_version_diff(&d.versions[k]));
        proof {
            assert(versions@.map_values(|v: JsonVersionDiff| v@) =~= before.push(d.versions@[k as int]@));
            assert(d.versions@.map_values(|v: VersionDiff| v@).take(k + 1) =~= d.versions@.map_values(
                |v: VersionDiff| v@,
            ).take(k as int).push(d.versions@[k as int]@));
        }
        k = k + 1;
    }
    proof {
        assert(d.versions@.map_values(|v: VersionDiff| v@).take(k as int) =~= d.versions@.map_values(|v: VersionDiff| v@));
    }
    JsonDiff {
        name: String::from_str(d.name.as_str()),
        versions,
        status: d.status,
        selection: d.selection,
        has_omitted_versions: d.has_omitted_versions,
        size_old: d.size.old_size(),
        size_new: d.size.new_size(),
        size_delta: d.size.delta(),
    }
}

impl JsonReport {
    /// The JSON document of a report: each package change with its sizes,
    /// the path counts, and the closure sizes in bytes.
    pub fn from_report(report: &DiffReport) -> (r: JsonReport)
        requires
            deltas_fit(report.diff_views()),
        ensures
            r.diffs@.map_values(|d: JsonDiff| d@) == report.diff_views().map_values(|d: PackageDiffView| json_diff(d)),
            (r.paths.old as nat, r.paths.new as nat, r.paths.added as nat, r.paths.removed as nat) == report.stats().counts(),
            (r.size_old as int, r.size_new as int) == report.sizes(),
    {
        let diffs = report.diffs();
        let ghost ds = report.diff_views();
        let mut out: Vec<JsonDiff> = Vec::new();
        let mut k: usize = 0;
        while k < diffs.len()
            invariant
                ds == package_diff_views(diffs@),
                deltas_fit(ds),
                k <= ds.len(),
                out@.map_values(|d: JsonDiff| d@) == ds.map_values(|d: PackageDiffView| json_diff(d)).take(k as int),
            decreases ds.len() - k,
        {
            proof {
                assert(ds[k as int] == diffs@[k as int]@);
            }
            let ghost before = out@.map_values(|d: JsonDiff| d@);
            out.push(json_package_diff(&diffs[k]));
            proof {
                assert(out@.map_values(|d: JsonDiff| d@) =~= before.push(json_diff(ds[k as int])));
                assert(ds.map_values(|d: PackageDiffView| json_diff(d)).take(k + 1) =~= ds.map_values(
                    |d: PackageDiffView| json_diff(d),
                ).take(k as int).push(json_diff(ds[k as int])));
            }
            k = k + 1;
        }
        proof {
            assert(ds.map_values(|d: PackageDiffView| json_diff(d)).take(k as int) =~= ds.map_values(
                |d: PackageDiffView| json_diff(d),
            ));
        }
        let stats: PathStats = report.path_stats();
        JsonReport {
            diffs: out,
            paths: JsonPathStats {
                old: stats.old_count(),
                new: stats.new_count(),
                added: stats.added_count(),
                removed: stats.removed_count(),
            },
            size_old: report.size_old(),
            size_new: report.size_new(),
        }
    }
}

} // verus!
