use dix::engine::{diff_snapshots, generate_diffs_from_version_map, PackageVersions, VersionAmounts};
use dix::model::{Diff, DiffStatus, VersionAmount, VersionDiff};
use dix::package::{Package, PackageSnapshot};
use dix::version::Version;
use std::collections::HashSet;

fn version_amount(version: &str, amount: usize) -> VersionAmount {
    VersionAmount::new(Version::new(version), amount)
}

fn amounts(versions: &[&str]) -> VersionAmounts {
    let mut a = VersionAmounts::new();
    for v in versions {
        a.add(Version::new(v));
    }
    a
}

fn package_versions(name: &str, old: &[&str], new: &[&str]) -> PackageVersions {
    PackageVersions { name: name.to_owned(), old: amounts(old), new: amounts(new) }
}

fn diff_for(name: &str, old: &[&str], new: &[&str]) -> Diff {
    let mut diffs = generate_diffs_from_version_map(&vec![package_versions(name, old, new)]);
    assert_eq!(diffs.len(), 1);
    diffs.remove(0)
}

fn old_side_count(diff: &Diff) -> usize {
    diff.versions
        .iter()
        .filter(|d| matches!(d, VersionDiff::Removed(_) | VersionDiff::Changed { .. } | VersionDiff::AmountChanged { .. }))
        .count()
}

fn new_side_count(diff: &Diff) -> usize {
    diff.versions
        .iter()
        .filter(|d| matches!(d, VersionDiff::Added(_) | VersionDiff::Changed { .. } | VersionDiff::AmountChanged { .. }))
        .count()
}

#[test]
fn engine_generate_diffs_empty_paths() {
    assert!(generate_diffs_from_version_map(&Vec::new()).is_empty());
}

#[test]
fn engine_generate_diffs_unchanged_package() {
    assert!(generate_diffs_from_version_map(&vec![package_versions("package", &["1.0.0"], &["1.0.0"])]).is_empty());
}

#[test]
fn generate_diffs_unchanged_duplicate_versions() {
    assert!(generate_diffs_from_version_map(&vec![package_versions(
        "package",
        &["1.0.0", "1.0.0"],
        &["1.0.0", "1.0.0"],
    )])
    .is_empty());
}

#[test]
fn engine_generate_diffs_added_package() {
    let diff = diff_for("new-pkg", &[], &["1.0.0"]);

    assert_eq!(diff.name, "new-pkg");
    assert_eq!(diff.status, DiffStatus::Added);
    assert_eq!(diff.versions, vec![VersionDiff::Added(version_amount("1.0.0", 1))]);
}

#[test]
fn engine_generate_diffs_removed_package() {
    let diff = diff_for("old-pkg", &["1.0.0"], &[]);

    assert_eq!(diff.name, "old-pkg");
    assert_eq!(diff.status, DiffStatus::Removed);
    assert_eq!(diff.versions, vec![VersionDiff::Removed(version_amount("1.0.0", 1))]);
}

#[test]
fn generate_diffs_reports_added_version_amounts() {
    let diff = diff_for("new-pkg", &[], &["1.0.0", "1.0.0"]);

    assert_eq!(diff.status, DiffStatus::Added);
    assert_eq!(diff.versions, vec![VersionDiff::Added(version_amount("1.0.0", 2))]);
}

#[test]
fn generate_diffs_reports_removed_version_amounts() {
    let diff = diff_for("old-pkg", &["1.0.0", "1.0.0"], &[]);

    assert_eq!(diff.status, DiffStatus::Removed);
    assert_eq!(diff.versions, vec![VersionDiff::Removed(version_amount("1.0.0", 2))]);
}

#[test]
fn generate_diffs_reports_changed_version_amounts() {
    let diff = diff_for("pkg", &["1.0.0"], &["1.0.0", "1.0.0"]);

    assert_eq!(diff.status, DiffStatus::Changed);
    assert!(!diff.has_omitted_versions);
    assert_eq!(
        diff.versions,
        vec![VersionDiff::AmountChanged { version: Version::new("1.0.0"), old_amount: 1, new_amount: 2 }]
    );
}

#[test]
fn generate_diffs_reports_version_change_amounts() {
    let diff = diff_for("pkg", &["1.0.0"], &["2.0.0", "2.0.0"]);

    assert_eq!(diff.status, DiffStatus::Upgraded);
    assert_eq!(
        diff.versions,
        vec![VersionDiff::Changed { old: version_amount("1.0.0", 1), new: version_amount("2.0.0", 2) }]
    );
}

#[test]
fn engine_generate_diffs_upgraded() {
    let diff = diff_for("pkg", &["1.0.0"], &["2.0.0"]);

    assert_eq!(diff.status, DiffStatus::Upgraded);
    assert_eq!(
        diff.versions,
        vec![VersionDiff::Changed { old: version_amount("1.0.0", 1), new: version_amount("2.0.0", 1) }]
    );
}

#[test]
fn generate_diffs_reports_git_hash_only_change_as_changed() {
    let diff = diff_for("sunsetr", &["0.11.1-946aa34"], &["0.11.1-3564204"]);

    assert_eq!(diff.status, DiffStatus::Changed);
    assert_eq!(
        diff.versions,
        vec![VersionDiff::Changed {
            old: version_amount("0.11.1-946aa34", 1),
            new: version_amount("0.11.1-3564204", 1),
        }]
    );
}

#[test]
fn generate_diffs_uses_dated_component_before_git_hash_for_upgrade() {
    let diff = diff_for("yazi", &["25.05.31pre20250531_946aa34"], &["25.05.31pre20250601_3564204"]);

    assert_eq!(diff.status, DiffStatus::Upgraded);
}

#[test]
fn engine_generate_diffs_downgraded() {
    let diff = diff_for("pkg", &["2.0.0"], &["1.0.0"]);

    assert_eq!(diff.status, DiffStatus::Downgraded);
}

#[test]
fn engine_generate_diffs_upgrade_downgrade() {
    let diff = diff_for("pkg", &["1.0", "5.0"], &["2.0", "4.0"]);

    assert_eq!(diff.status, DiffStatus::Mixed);
}

#[test]
fn engine_generate_diffs_multiple_packages() {
    let packages = vec![
        package_versions("pkg-a", &["1.0.0"], &["2.0.0"]),
        package_versions("pkg-b", &[], &["1.0.0"]),
        package_versions("pkg-c", &["1.0.0"], &["1.0.0"]),
    ];

    let result = generate_diffs_from_version_map(&packages);
    let names: HashSet<&str> = result.iter().map(|diff| diff.name.as_str()).collect();

    assert_eq!(result.len(), 2);
    assert!(names.contains("pkg-a"));
    assert!(names.contains("pkg-b"));
    assert!(!names.contains("pkg-c"));
}

#[test]
fn engine_generate_diffs_common_versions() {
    let diff = diff_for("pkg", &["1.0.0", "2.0.0"], &["2.0.0", "3.0.0"]);

    assert!(diff.has_omitted_versions);
    assert_eq!(diff.status, DiffStatus::Upgraded);
}

#[test]
fn engine_generate_diffs_many_versions() {
    let mut old = VersionAmounts::new();
    for index in 0..100 {
        old.add(Version::new(&format!("1.{index}.{index}")));
    }
    let mut new = VersionAmounts::new();
    for index in 50..150 {
        new.add(Version::new(&format!("1.{index}.{index}")));
    }
    let packages = vec![PackageVersions { name: "large-pkg".to_owned(), old, new }];

    let result = generate_diffs_from_version_map(&packages);

    assert_eq!(result.len(), 1);
    assert!(result[0].has_omitted_versions);
    assert_eq!(old_side_count(&result[0]), 50);
    assert_eq!(new_side_count(&result[0]), 50);
}

fn package(name: &str, version: &str) -> Package {
    Package::new(name.to_owned(), Version::new(version))
}

#[test]
fn identical_snapshots_have_no_changes() {
    let snapshot = PackageSnapshot::new(vec![
        package("bash", "5.2"),
        package("glibc", "2.42"),
        package("bash", "5.2"),
        package("nano", "8.0"),
    ]);
    let again = PackageSnapshot::new(vec![
        package("bash", "5.2"),
        package("glibc", "2.42"),
        package("bash", "5.2"),
        package("nano", "8.0"),
    ]);
    assert!(diff_snapshots(&snapshot, &again).is_empty());
}

#[test]
fn snapshot_changes_are_sorted_by_name() {
    let old = PackageSnapshot::new(vec![package("zsh", "5.8"), package("bash", "5.2"), package("nano", "8.0")]);
    let new = PackageSnapshot::new(vec![package("nano", "8.1"), package("zsh", "5.9"), package("ripgrep", "14.1")]);
    let diffs = diff_snapshots(&old, &new);
    let names: Vec<&str> = diffs.iter().map(|d| d.name.as_str()).collect();
    assert_eq!(names, vec!["bash", "nano", "ripgrep", "zsh"]);
    assert_eq!(diffs[0].status, DiffStatus::Removed);
    assert_eq!(diffs[1].status, DiffStatus::Upgraded);
    assert_eq!(diffs[2].status, DiffStatus::Added);
    assert_eq!(diffs[3].status, DiffStatus::Upgraded);
}

#[test]
fn version_amounts_count_repeated_versions() {
    let a = amounts(&["2.0", "1.0", "2.0"]);
    assert_eq!(a.len(), 2);
    assert_eq!(a.get(&Version::new("2.0")), Some(2));
    assert_eq!(a.get(&Version::new("1.0")), Some(1));
    assert_eq!(a.get(&Version::new("3.0")), None);
    assert_eq!(a.entry(0).version, Version::new("1.0"));
}
