use dix::json::{JsonReport, JsonVersionDiff};
use dix::model::{DiffStatus, VersionAmount, VersionDiff};
use dix::render::{fmt_version_diffs, fmt_version_piece_pair, plain_text, write_diff_report, Segment, Style};
use dix::report::{
    diff_store_snapshots, DerivationSelectionStatus, DiffReport, PackageDiff, PackageSizeDelta, PathStats, StorePathInfo,
    StoreSnapshot,
};
use dix::store_path::StorePath;
use dix::version::{Version, VersionComponent, VersionPiece};

fn store_path_with_hash(hash: &str, name: &str) -> StorePath {
    StorePath::try_from(format!("/nix/store/{hash}-{name}"))
        .unwrap_or_else(|err| panic!("failed to create test store path: {err:?}"))
}

fn store_path(name: &str) -> StorePath {
    store_path_with_hash("0123456789abcdefghijklmnopqrstuv", name)
}

fn store_path_info(name: &str, nar_size: i64) -> StorePathInfo {
    StorePathInfo::new(store_path(name), nar_size)
}

fn store_path_info_with_hash(hash: &str, name: &str, nar_size: i64) -> StorePathInfo {
    StorePathInfo::new(store_path_with_hash(hash, name), nar_size)
}

fn text(segs: &Vec<Segment>) -> String {
    plain_text(segs).into_iter().collect()
}

#[test]
fn path_stats_count_exact_unique_path_sets() {
    let shared = store_path("shared-1.0");
    let removed_a = store_path("removed-a-1.0");
    let removed_b = store_path("removed-b-1.0");
    let added = store_path("added-1.0");

    let old = vec![shared.clone(), shared.clone(), removed_a, removed_b];
    let new = vec![shared, added];

    assert_eq!(PathStats::between(&old, &new), PathStats::new_for_test(3, 2, 1, 2));
}

#[test]
fn between_matches_alpha_leading_git_hash_versions() {
    let old_hash = "0bf8387987c21bf2f8ed41d2575a8f22b139687f";
    let new_hash = "cd1931314beafeebc957964c65802961e283411e";
    let old_info = store_path_info(&format!("helix-tree-sitter-pod-{old_hash}"), 100);
    let new_info = store_path_info(&format!("helix-tree-sitter-pod-{new_hash}"), 200);
    let old_snapshot = StoreSnapshot { closure: vec![old_info], selected: Vec::new() };
    let new_snapshot = StoreSnapshot { closure: vec![new_info], selected: Vec::new() };
    let report = diff_store_snapshots(&old_snapshot, &new_snapshot);

    assert_eq!(report.diffs().len(), 1);
    let diff = &report.diffs()[0];
    assert_eq!(diff.name, "helix-tree-sitter-pod");
    assert_eq!(diff.status, DiffStatus::Changed);
    assert_eq!(diff.versions.len(), 1);
    match &diff.versions[0] {
        VersionDiff::Changed { old, new } => {
            assert_eq!(old.version.name, old_hash);
            assert_eq!(new.version.name, new_hash);
        },
        other => panic!("expected changed version diff, got {other:?}"),
    }
    assert_eq!(diff.size.old_size(), 100);
    assert_eq!(diff.size.new_size(), 200);
}

#[test]
fn includes_size_only_package_diff_above_threshold() {
    let old_info = store_path_info_with_hash("0123456789abcdefghijklmnopqrstuv", "source", 100);
    let new_info = store_path_info_with_hash("vutsrqponmlkjihgfedcba9876543210", "source", 9_000);
    let old_snapshot = StoreSnapshot { closure: vec![old_info], selected: Vec::new() };
    let new_snapshot = StoreSnapshot { closure: vec![new_info], selected: Vec::new() };
    let report = diff_store_snapshots(&old_snapshot, &new_snapshot);

    assert_eq!(report.diffs().len(), 1);
    let diff = &report.diffs()[0];
    assert_eq!(diff.name, "source");
    assert_eq!(diff.status, DiffStatus::Changed);
    assert!(diff.versions.is_empty());
    assert_eq!(diff.size.old_size(), 100);
    assert_eq!(diff.size.new_size(), 9_000);
}

#[test]
fn size_change_at_threshold_is_not_listed() {
    let old_info = store_path_info_with_hash("0123456789abcdefghijklmnopqrstuv", "source", 100);
    let new_info = store_path_info_with_hash("vutsrqponmlkjihgfedcba9876543210", "source", 8_292);
    let old_snapshot = StoreSnapshot { closure: vec![old_info], selected: Vec::new() };
    let new_snapshot = StoreSnapshot { closure: vec![new_info], selected: Vec::new() };
    let report = diff_store_snapshots(&old_snapshot, &new_snapshot);
    assert!(report.diffs().is_empty());
    assert_eq!(report.size_old(), 100);
    assert_eq!(report.size_new(), 8_292);
}

#[test]
fn diff_store_snapshots_preserves_selection_status() {
    let old_info = store_path_info("package-1.0", 100);
    let new_info = store_path_info("package-2.0", 200);
    let old_snapshot = StoreSnapshot { closure: vec![old_info.clone()], selected: vec![old_info.path().clone()] };
    let new_snapshot = StoreSnapshot { closure: vec![new_info], selected: Vec::new() };
    let report = diff_store_snapshots(&old_snapshot, &new_snapshot);

    assert_eq!(report.diffs().len(), 1);
    assert_eq!(report.diffs()[0].selection, DerivationSelectionStatus::NewlyUnselected);
}

#[test]
fn package_size_delta_significance() {
    let small = PackageSizeDelta::new(1_000, 9_192);
    assert_eq!(small.delta(), 8_192);
    assert!(!small.is_significant());
    let large = PackageSizeDelta::new(9_193, 0);
    assert_eq!(large.delta(), -9_193);
    assert!(large.is_significant());
}

#[test]
fn fmt_version_diffs_formats_added_and_removed_amounts() {
    let version_diffs = vec![
        VersionDiff::Removed(VersionAmount::new(Version::new("1.0.0"), 2)),
        VersionDiff::Added(VersionAmount::new(Version::new("2.0.0"), 3)),
    ];

    let (old, new) = fmt_version_diffs(&version_diffs, false);

    assert_eq!(text(&old), "1.0.0 ×2");
    assert_eq!(text(&new), "2.0.0 ×3");
}

#[test]
fn fmt_version_diffs_formats_amount_changes() {
    let version_diffs = vec![VersionDiff::AmountChanged { version: Version::new("1.0.0"), old_amount: 1, new_amount: 2 }];

    let (old, new) = fmt_version_diffs(&version_diffs, false);

    assert_eq!(text(&old), "1.0.0");
    assert_eq!(text(&new), "1.0.0 ×2");
}

fn sample_report() -> DiffReport {
    DiffReport::new_for_test(
        vec![PackageDiff {
            name: "nixos".to_owned(),
            versions: vec![
                VersionDiff::Changed {
                    old: VersionAmount::new(Version::new("25.11-system-path"), 1),
                    new: VersionAmount::new(Version::new("25.12-system-path"), 1),
                },
                VersionDiff::AmountChanged { version: Version::new("25.12-system"), old_amount: 1, new_amount: 2 },
            ],
            status: DiffStatus::Changed,
            selection: DerivationSelectionStatus::Unselected,
            has_omitted_versions: false,
            size: PackageSizeDelta::new(1_000, 2_500),
        }],
        PathStats::new_for_test(7529, 7536, 5054, 5047),
        115_001_000,
        115_001_000,
    )
}

#[test]
fn json_report_carries_report_values() {
    let report = sample_report();
    let json = JsonReport::from_report(&report);
    assert_eq!(json.size_old, 115_001_000);
    assert_eq!(json.size_new, 115_001_000);
    assert_eq!(json.paths.old, 7529);
    assert_eq!(json.paths.new, 7536);
    assert_eq!(json.paths.added, 5054);
    assert_eq!(json.paths.removed, 5047);
    assert_eq!(json.diffs.len(), 1);
    let diff = &json.diffs[0];
    assert_eq!(diff.name, "nixos");
    assert_eq!(diff.size_old, 1_000);
    assert_eq!(diff.size_new, 2_500);
    assert_eq!(diff.size_delta, 1_500);
    assert_eq!(diff.status, DiffStatus::Changed);
    assert_eq!(diff.selection, DerivationSelectionStatus::Unselected);
    assert!(!diff.has_omitted_versions);
    match &diff.versions[0] {
        JsonVersionDiff::Changed { old, new } => {
            assert_eq!(old.name, "25.11-system-path");
            assert_eq!(old.amount, 1);
            assert_eq!(new.name, "25.12-system-path");
        },
        _ => panic!("expected a changed version"),
    }
    match &diff.versions[1] {
        JsonVersionDiff::AmountChanged { version, old_amount, new_amount } => {
            assert_eq!(version.name, "25.12-system");
            assert_eq!(*old_amount, 1);
            assert_eq!(*new_amount, 2);
        },
        _ => panic!("expected an amount change"),
    }
}

#[test]
fn diff_report_renders_listing() {
    let report = sample_report();
    let (count, segs) = write_diff_report(&report).unwrap();
    assert_eq!(count, 1);
    let rendered = text(&segs);
    assert!(rendered.starts_with("\nCHANGED\n[C.] nixos"));
    assert!(rendered.contains("25.11-system-path"));
    assert!(rendered.contains(" -> "));
}

#[test]
fn size_display_is_not_the_raw_number() {
    let mut segs: Vec<Segment> = Vec::new();
    dix::render::write_size_diff(&mut segs, 1_000, 2_024);
    let rendered = text(&segs);
    assert!(rendered.starts_with("SIZE: "));
    assert!(rendered.contains("DIFF: "));
    assert!(!rendered.contains("1024"));
}

#[test]
fn identical_store_snapshots_have_no_changes() {
    let snapshot = StoreSnapshot {
        closure: vec![store_path_info("bash-5.2", 100), store_path_info("glibc-2.42", 2_000_000)],
        selected: vec![store_path("bash-5.2")],
    };
    let report = diff_store_snapshots(&snapshot, &snapshot.clone());
    assert!(report.diffs().is_empty());
    assert_eq!(report.size_old(), 2_000_100);
    assert_eq!(report.size_new(), 2_000_100);
    assert_eq!(report.path_stats(), PathStats::new_for_test(2, 2, 0, 0));
}

#[test]
fn changed_component_marks_only_differing_characters() {
    let mut old: Vec<Segment> = Vec::new();
    let mut new: Vec<Segment> = Vec::new();
    fmt_version_piece_pair(
        &mut old,
        &mut new,
        &VersionPiece::Component(VersionComponent("123")),
        &VersionPiece::Component(VersionComponent("124")),
    );
    let old_styles: Vec<(String, Style)> = old.iter().map(|s| (s.text.iter().collect(), s.style)).collect();
    let new_styles: Vec<(String, Style)> = new.iter().map(|s| (s.text.iter().collect(), s.style)).collect();
    assert_eq!(
        old_styles,
        vec![("1".to_owned(), Style::Yellow), ("2".to_owned(), Style::Yellow), ("3".to_owned(), Style::Red)]
    );
    assert_eq!(
        new_styles,
        vec![("1".to_owned(), Style::Yellow), ("2".to_owned(), Style::Yellow), ("4".to_owned(), Style::Green)]
    );
}

#[test]
fn path_counts_balance() {
    let old = vec![store_path("a-1"), store_path("b-1"), store_path("b-1"), store_path("c-1")];
    let new = vec![store_path("b-1"), store_path("c-1"), store_path("d-1"), store_path("e-1")];
    let stats = PathStats::between(&old, &new);
    assert_eq!(stats.old_count() - stats.removed_count(), stats.new_count() - stats.added_count());
    assert_eq!(stats, PathStats::new_for_test(3, 4, 2, 1));
}

#[test]
fn report_changes_are_in_name_order() {
    let old_snapshot = StoreSnapshot {
        closure: vec![
            store_path_info("zeta-1.0", 10),
            store_path_info_with_hash("0123456789abcdefghijklmnopqrstuv", "alpha", 100),
        ],
        selected: Vec::new(),
    };
    let new_snapshot = StoreSnapshot {
        closure: vec![
            store_path_info("zeta-2.0", 10),
            store_path_info_with_hash("vutsrqponmlkjihgfedcba9876543210", "alpha", 50_000),
            store_path_info("mid-3.0", 7),
        ],
        selected: Vec::new(),
    };
    let report = diff_store_snapshots(&old_snapshot, &new_snapshot);
    let names: Vec<&str> = report.diffs().iter().map(|d| d.name.as_str()).collect();
    assert_eq!(names, vec!["alpha", "mid", "zeta"]);
    assert!(report.diffs()[0].versions.is_empty());
    assert_eq!(report.diffs()[1].status, DiffStatus::Added);
    assert_eq!(report.diffs()[2].status, DiffStatus::Upgraded);
}
