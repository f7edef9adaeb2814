use dix::closure::{diff_snapshots, ClosureSnapshot};
use dix::listing::{render_path_diffs, write_packages_diff};
use dix::matching::Pairing;
use dix::paths::{add_selection_status, generate_diffs_from_paths, match_version_lists, Change, Diff, DiffStatus, StorePath};
use dix::render::{plain_text, Segment};
use dix::report::DerivationSelectionStatus;
use dix::version::Version;
use std::collections::HashSet;

type Entries = Vec<(String, Vec<Version>, Vec<Version>)>;

fn versions(v: &[&str]) -> Vec<Version> {
    v.iter().map(|s| Version::new(s)).collect()
}

fn entry(name: &str, old: &[&str], new: &[&str]) -> (String, Vec<Version>, Vec<Version>) {
    (name.to_owned(), versions(old), versions(new))
}

fn text(segs: &Vec<Segment>) -> String {
    plain_text(segs).into_iter().collect()
}

#[test]
fn match_version_lists_test() {
    let version_list_a = [Version::new("6.16.0"), Version::new("5.116.0")];
    let version_list_b = [Version::new("6.17.0"), Version::new("5.116.0-bin")];

    let matched = match_version_lists(&version_list_a, &version_list_b);

    for version in matched {
        match version {
            Pairing::Both(left, right) => {
                assert!(left == &Version::new("6.16.0") || left == &Version::new("5.116.0"));
                assert!(right == &Version::new("6.17.0") || right == &Version::new("5.116.0-bin"));
            },
            Pairing::Left(left) => {
                assert!(left == &Version::new("5.116.0-bin"))
            },
            Pairing::Right(right) => {
                assert!(right == &Version::new("5.116.0"))
            },
        }
    }
}

#[test]
fn generate_diffs_from_paths_test() {
    let paths: Entries = vec![entry("tmp", &["1.1.0", "1.3"], &["1.1.0", "1.4"])];
    let mut vec_1 = generate_diffs_from_paths(paths);
    add_selection_status(&mut vec_1, &Vec::new(), &Vec::new());
    let res_2 = Diff {
        name: "tmp".to_owned(),
        old: vec![Version::new("1.3")],
        new: vec![Version::new("1.4")],
        status: DiffStatus::Changed(Change::Upgraded),
        selection: DerivationSelectionStatus::Unselected,
        has_common_versions: true,
    };
    assert_eq!(vec_1.first().unwrap(), &res_2);

    let paths: Entries = vec![entry("tmp", &["1.2.0", "1.5"], &["1.2.0"])];
    let mut vec_2 = generate_diffs_from_paths(paths);
    add_selection_status(&mut vec_2, &Vec::new(), &Vec::new());
    let res_2 = Diff {
        name: "tmp".to_owned(),
        old: vec![Version::new("1.5")],
        new: vec![],
        status: DiffStatus::Changed(Change::UpgradeDowngrade),
        selection: DerivationSelectionStatus::Unselected,
        has_common_versions: true,
    };
    assert_eq!(vec_2.first().unwrap(), &res_2);
}

#[test]
fn match_version_lists_empty() {
    let empty: &[Version] = &[];
    let versions = [Version::new("1.0.0")];

    let result = match_version_lists(empty, &versions);
    assert_eq!(result.len(), 1);
    assert!(matches!(result[0], Pairing::Right(_)));

    let result = match_version_lists(&versions, empty);
    assert_eq!(result.len(), 1);
    assert!(matches!(result[0], Pairing::Left(_)));

    let result = match_version_lists(empty, empty);
    assert!(result.is_empty());
}

#[test]
fn match_version_lists_exact_matches() {
    let a = [Version::new("1.0.0")];
    let b = [Version::new("1.0.0")];
    let result = match_version_lists(&a, &b);
    assert_eq!(result.len(), 1);
    assert!(matches!(result[0], Pairing::Both(_, _)));

    let a = [Version::new("1.0.0"), Version::new("2.0.0")];
    let b = [Version::new("1.0.0"), Version::new("2.0.0")];
    let result = match_version_lists(&a, &b);
    let both_count = result.iter().filter(|r| matches!(r, Pairing::Both(_, _))).count();
    assert_eq!(both_count, 2);
}

#[test]
fn match_version_lists_unequal_sizes() {
    let a = [Version::new("1.0.0"), Version::new("2.0.0"), Version::new("3.0.0")];
    let b = [Version::new("1.0.0")];
    let result = match_version_lists(&a, &b);
    assert_eq!(result.len(), 3);

    let a = [Version::new("1.0.0")];
    let b = [Version::new("1.0.0"), Version::new("2.0.0"), Version::new("3.0.0")];
    let result = match_version_lists(&a, &b);
    assert_eq!(result.len(), 3);
}

#[test]
fn match_version_lists_similar_versions() {
    let a = [Version::new("1.0.0"), Version::new("2.0.0")];
    let b = [Version::new("1.0.1"), Version::new("2.0.0")];
    let result = match_version_lists(&a, &b);

    let exact_match = result.iter().any(|r| {
        if let Pairing::Both(left, right) = r {
            left.name == "2.0.0" && right.name == "2.0.0"
        } else {
            false
        }
    });
    assert!(exact_match);
}

#[test]
fn diff_generate_diffs_empty_paths() {
    let result = generate_diffs_from_paths(Vec::new());
    assert!(result.is_empty());
}

#[test]
fn diff_generate_diffs_unchanged_package() {
    let result = generate_diffs_from_paths(vec![entry("package", &["1.0.0"], &["1.0.0"])]);
    assert!(result.is_empty());
}

#[test]
fn diff_generate_diffs_added_package() {
    let result = generate_diffs_from_paths(vec![entry("new-pkg", &[], &["1.0.0"])]);
    assert_eq!(result.len(), 1);
    assert_eq!(result[0].name, "new-pkg");
    assert_eq!(result[0].status, DiffStatus::Added);
    assert!(result[0].old.is_empty());
    assert_eq!(result[0].new.len(), 1);
}

#[test]
fn diff_generate_diffs_removed_package() {
    let result = generate_diffs_from_paths(vec![entry("old-pkg", &["1.0.0"], &[])]);
    assert_eq!(result.len(), 1);
    assert_eq!(result[0].name, "old-pkg");
    assert_eq!(result[0].status, DiffStatus::Removed);
    assert_eq!(result[0].old.len(), 1);
    assert!(result[0].new.is_empty());
}

#[test]
fn diff_generate_diffs_upgraded() {
    let result = generate_diffs_from_paths(vec![entry("pkg", &["1.0.0"], &["2.0.0"])]);
    assert_eq!(result.len(), 1);
    assert_eq!(result[0].status, DiffStatus::Changed(Change::Upgraded));
    assert_eq!(result[0].old[0].name, "1.0.0");
    assert_eq!(result[0].new[0].name, "2.0.0");
}

#[test]
fn diff_generate_diffs_downgraded() {
    let result = generate_diffs_from_paths(vec![entry("pkg", &["2.0.0"], &["1.0.0"])]);
    assert_eq!(result.len(), 1);
    assert_eq!(result[0].status, DiffStatus::Changed(Change::Downgraded));
}

#[test]
fn diff_generate_diffs_upgrade_downgrade() {
    let result = generate_diffs_from_paths(vec![entry("pkg", &["1.0", "5.0"], &["2.0", "4.0"])]);
    assert_eq!(result.len(), 1);
    assert_eq!(result[0].status, DiffStatus::Changed(Change::UpgradeDowngrade));
}

#[test]
fn diff_generate_diffs_multiple_packages() {
    let result = generate_diffs_from_paths(vec![
        entry("pkg-a", &["1.0.0"], &["2.0.0"]),
        entry("pkg-b", &[], &["1.0.0"]),
        entry("pkg-c", &["1.0.0"], &["1.0.0"]),
    ]);
    assert_eq!(result.len(), 2);

    let names: HashSet<&str> = result.iter().map(|d| d.name.as_str()).collect();
    assert!(names.contains("pkg-a"));
    assert!(names.contains("pkg-b"));
    assert!(!names.contains("pkg-c"));
}

#[test]
fn generate_diffs_version_deduplication() {
    let result = generate_diffs_from_paths(vec![entry("pkg", &["1.0.0", "1.0.0", "1.0.0"], &["2.0.0"])]);
    assert_eq!(result.len(), 1);
    assert_eq!(result[0].status, DiffStatus::Changed(Change::Upgraded));
}

#[test]
fn diff_generate_diffs_common_versions() {
    let result = generate_diffs_from_paths(vec![entry("pkg", &["1.0.0", "2.0.0"], &["2.0.0", "3.0.0"])]);
    assert_eq!(result.len(), 1);
    assert!(result[0].has_common_versions);
    assert_eq!(result[0].status, DiffStatus::Changed(Change::Upgraded));
}

#[test]
fn selection_status_selected() {
    let result = generate_diffs_from_paths(vec![entry("system-pkg", &["1.0.0"], &["1.0.0"])]);
    assert!(result.is_empty());

    let mut result = generate_diffs_from_paths(vec![entry("system-pkg", &["1.0.0"], &["2.0.0"])]);
    let sys_old = vec!["system-pkg".to_owned()];
    let sys_new = vec!["system-pkg".to_owned()];

    add_selection_status(&mut result, &sys_old, &sys_new);
    assert_eq!(result[0].selection, DerivationSelectionStatus::Selected);
}

#[test]
fn selection_status_newly_selected() {
    let mut result = generate_diffs_from_paths(vec![entry("new-system-pkg", &["1.0.0"], &["2.0.0"])]);
    let sys_old = Vec::new();
    let sys_new = vec!["new-system-pkg".to_owned()];

    add_selection_status(&mut result, &sys_old, &sys_new);
    assert_eq!(result[0].selection, DerivationSelectionStatus::NewlySelected);
}

#[test]
fn selection_status_newly_unselected() {
    let mut result = generate_diffs_from_paths(vec![entry("removed-system-pkg", &["1.0.0"], &["2.0.0"])]);
    let sys_old = vec!["removed-system-pkg".to_owned()];
    let sys_new = Vec::new();

    add_selection_status(&mut result, &sys_old, &sys_new);
    assert_eq!(result[0].selection, DerivationSelectionStatus::NewlyUnselected);
}

#[test]
fn selection_status_unselected() {
    let mut result = generate_diffs_from_paths(vec![entry("dep-pkg", &["1.0.0"], &["2.0.0"])]);

    add_selection_status(&mut result, &Vec::new(), &Vec::new());
    assert_eq!(result[0].selection, DerivationSelectionStatus::Unselected);
}

#[test]
fn diff_generate_diffs_many_versions() {
    let old_versions: Vec<Version> = (0..100).map(|i| Version::new(&format!("1.{i}.{i}"))).collect();
    let new_versions: Vec<Version> = (50..150).map(|i| Version::new(&format!("1.{i}.{i}"))).collect();

    let result = generate_diffs_from_paths(vec![("large-pkg".to_owned(), old_versions, new_versions)]);
    assert_eq!(result.len(), 1);
    assert!(result[0].has_common_versions);
    assert_eq!(result[0].old.len(), 50);
    assert_eq!(result[0].new.len(), 50);
}

#[test]
fn generate_diffs_prerelease_versions() {
    let result = generate_diffs_from_paths(vec![entry("pkg", &["1.0.0-alpha", "1.0.0-beta"], &["1.0.0", "1.0.0-rc"])]);
    assert_eq!(result.len(), 1);
    assert_eq!(result[0].old.len(), 2);
    assert_eq!(result[0].new.len(), 2);
}

#[test]
fn generate_diffs_complex_version_changes() {
    let result = generate_diffs_from_paths(vec![entry(
        "complex-pkg",
        &["1.0.0", "1.0.1", "1.1.0", "2.0.0"],
        &["1.0.1", "1.1.0", "1.2.0", "2.0.0", "3.0.0"],
    )]);
    assert_eq!(result.len(), 1);
    assert!(result[0].has_common_versions);
    assert_eq!(result[0].old.len(), 1);
    assert_eq!(result[0].new.len(), 2);
}

fn store_path(hash: &str, suffix: &str) -> StorePath {
    StorePath::try_from(format!("/tmp/dix-snapshot-tests/{hash}-{suffix}")).unwrap()
}

#[test]
fn diff_snapshots_reports_semantic_changes_from_detached_data() {
    let old = ClosureSnapshot {
        root_path: store_path("aaaaaaaaaaaaaaaaaaaaaaaaaaaaaaaa", "nixos-system-old"),
        closure_size_bytes: 100,
        closure_paths: vec![
            store_path("11111111111111111111111111111111", "bash-5.2"),
            store_path("22222222222222222222222222222222", "nano-8.0"),
            store_path("33333333333333333333333333333333", "glibc-2.42"),
        ],
        selected_paths: vec![
            store_path("11111111111111111111111111111111", "bash-5.2"),
            store_path("22222222222222222222222222222222", "nano-8.0"),
        ],
    };

    let new = ClosureSnapshot {
        root_path: store_path("bbbbbbbbbbbbbbbbbbbbbbbbbbbbbbbb", "nixos-system-new"),
        closure_size_bytes: 120,
        closure_paths: vec![
            store_path("44444444444444444444444444444444", "bash-5.3"),
            store_path("33333333333333333333333333333333", "glibc-2.42"),
            store_path("55555555555555555555555555555555", "ripgrep-14.1"),
        ],
        selected_paths: vec![
            store_path("44444444444444444444444444444444", "bash-5.3"),
            store_path("55555555555555555555555555555555", "ripgrep-14.1"),
        ],
    };

    let report = diff_snapshots(&old, &new).unwrap();

    assert_eq!(report.size_old, 100);
    assert_eq!(report.size_new, 120);
    assert_eq!(report.diffs.len(), 3);

    let bash = report.diffs.iter().find(|diff| diff.name == "bash").unwrap();
    assert_eq!(bash.status, DiffStatus::Changed(Change::Upgraded));
    assert_eq!(bash.selection, DerivationSelectionStatus::Selected);

    let ripgrep = report.diffs.iter().find(|diff| diff.name == "ripgrep").unwrap();
    assert_eq!(ripgrep.status, DiffStatus::Added);
    assert_eq!(ripgrep.selection, DerivationSelectionStatus::NewlySelected);

    let nano = report.diffs.iter().find(|diff| diff.name == "nano").unwrap();
    assert_eq!(nano.status, DiffStatus::Removed);
    assert_eq!(nano.selection, DerivationSelectionStatus::NewlyUnselected);
}

#[test]
fn diff_snapshots_rejects_selected_paths_outside_the_closure() {
    let snapshot = ClosureSnapshot {
        root_path: store_path("cccccccccccccccccccccccccccccccc", "nixos-system-invalid"),
        closure_size_bytes: 42,
        closure_paths: vec![store_path("66666666666666666666666666666666", "bash-5.3")],
        selected_paths: vec![store_path("77777777777777777777777777777777", "ripgrep-14.1")],
    };

    let err = diff_snapshots(&snapshot, &snapshot).unwrap_err();
    assert!(err.to_string().contains("selected path") && err.to_string().contains("not present in closure snapshot"));
}

#[test]
fn identical_closures_have_no_changes() {
    let snapshot = ClosureSnapshot {
        root_path: store_path("aaaaaaaaaaaaaaaaaaaaaaaaaaaaaaaa", "nixos-system"),
        closure_size_bytes: 7,
        closure_paths: vec![
            store_path("11111111111111111111111111111111", "bash-5.2"),
            store_path("22222222222222222222222222222222", "bash-5.2"),
            store_path("33333333333333333333333333333333", "glibc-2.42"),
        ],
        selected_paths: vec![store_path("11111111111111111111111111111111", "bash-5.2")],
    };
    let report = diff_snapshots(&snapshot, &snapshot).unwrap();
    assert!(report.diffs.is_empty());
}

fn nix_path(hash: &str, name: &str) -> StorePath {
    StorePath::try_from(format!("/nix/store/{hash}-{name}")).unwrap()
}

#[test]
fn packages_listing_sorts_by_status_then_name() {
    let old = vec![
        nix_path("11111111111111111111111111111111", "zlib-1.3"),
        nix_path("22222222222222222222222222222222", "bash-5.2"),
        nix_path("33333333333333333333333333333333", "nano-8.0"),
    ];
    let new = vec![
        nix_path("44444444444444444444444444444444", "zlib-1.4"),
        nix_path("55555555555555555555555555555555", "bash-5.3"),
        nix_path("66666666666666666666666666666666", "ripgrep-14.1"),
    ];
    let system_new = vec![nix_path("66666666666666666666666666666666", "ripgrep-14.1")];
    let (count, segs) = write_packages_diff(&old, &new, &[], &system_new).unwrap();
    assert_eq!(count, 4);
    let rendered = text(&segs);
    let expected = "CHANGED\n[U.] bash    5.2 -> 5.3\n[U.] zlib    1.3 -> 1.4\n\nADDED\n[A+] ripgrep 14.1\n\nREMOVED\n[R.] nano    8.0\n";
    assert_eq!(rendered, expected);
}

#[test]
fn identical_path_lists_list_nothing() {
    let paths = vec![
        nix_path("11111111111111111111111111111111", "zlib-1.3"),
        nix_path("22222222222222222222222222222222", "bash-5.2"),
    ];
    let (count, segs) = write_packages_diff(&paths, &paths, &paths, &paths).unwrap();
    assert_eq!(count, 0);
    assert!(segs.is_empty());
}

#[test]
fn name_column_uses_display_width() {
    let mut diffs = generate_diffs_from_paths(vec![entry("日本", &["1.0"], &["2.0"]), entry("ab", &["1.0"], &["2.0"])]);
    add_selection_status(&mut diffs, &Vec::new(), &Vec::new());
    let rendered = text(&render_path_diffs(&diffs).unwrap());
    assert!(rendered.contains("[U.] ab   1.0 -> 2.0\n"));
    assert!(rendered.contains("[U.] 日本   1.0 -> 2.0\n"));
}

#[test]
fn package_diff_listing_follows_a_blank_line() {
    let old = ClosureSnapshot {
        root_path: store_path("aaaaaaaaaaaaaaaaaaaaaaaaaaaaaaaa", "nixos-system-old"),
        closure_size_bytes: 100,
        closure_paths: vec![
            store_path("11111111111111111111111111111111", "bash-5.2"),
            store_path("22222222222222222222222222222222", "nano-8.0"),
        ],
        selected_paths: vec![store_path("11111111111111111111111111111111", "bash-5.2")],
    };
    let new = ClosureSnapshot {
        root_path: store_path("bbbbbbbbbbbbbbbbbbbbbbbbbbbbbbbb", "nixos-system-new"),
        closure_size_bytes: 120,
        closure_paths: vec![
            store_path("44444444444444444444444444444444", "bash-5.3"),
            store_path("22222222222222222222222222222222", "nano-8.0"),
        ],
        selected_paths: vec![store_path("44444444444444444444444444444444", "bash-5.3")],
    };
    let (count, segs) = dix::listing::write_package_diff(&old, &new).unwrap().unwrap();
    assert_eq!(count, 1);
    assert_eq!(text(&segs), "\nCHANGED\n[U*] bash 5.2 -> 5.3\n");
}

#[test]
fn assignment_pairs_crossed_equal_versions() {
    let a = [Version::new("2.0.0"), Version::new("1.0.0-pre")];
    let b = [Version::new("1.0.0-pre"), Version::new("2.0.0")];
    let result = match_version_lists(&a, &b);
    assert_eq!(result.len(), 2);
    for pairing in result {
        match pairing {
            Pairing::Both(left, right) => assert_eq!(left, right),
            _ => panic!("every version has an equal partner"),
        }
    }
}

#[test]
fn closure_diff_lists_versions_in_version_order() {
    let old = ClosureSnapshot {
        root_path: store_path("aaaaaaaaaaaaaaaaaaaaaaaaaaaaaaaa", "nixos-system-old"),
        closure_size_bytes: 1,
        closure_paths: vec![
            store_path("11111111111111111111111111111111", "pkg-10.0"),
            store_path("22222222222222222222222222222222", "pkg-2.0"),
            store_path("33333333333333333333333333333333", "pkg-1.5"),
        ],
        selected_paths: vec![],
    };
    let new = ClosureSnapshot {
        root_path: store_path("bbbbbbbbbbbbbbbbbbbbbbbbbbbbbbbb", "nixos-system-new"),
        closure_size_bytes: 1,
        closure_paths: vec![],
        selected_paths: vec![],
    };
    let report = diff_snapshots(&old, &new).unwrap();
    assert_eq!(report.diffs.len(), 1);
    let names: Vec<&str> = report.diffs[0].old.iter().map(|v| v.name.as_str()).collect();
    assert_eq!(names, vec!["1.5", "2.0", "10.0"]);
    assert_eq!(report.diffs[0].status, DiffStatus::Removed);
}
