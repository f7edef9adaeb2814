use dix::paths::StorePath as PathsStorePath;
use dix::store_path::StorePath;
use dix::version::Version;

fn store(path: &str) -> StorePath {
    StorePath::try_from(path.to_owned()).unwrap_or_else(|err| panic!("failed to create StorePath: {err:?}"))
}

fn paths_store(path: &str) -> PathsStorePath {
    PathsStorePath::try_from(path.to_owned()).expect("Failed to create StorePath")
}

#[test]
fn lib_test_store_path_from_nix_store() {
    let path = "/nix/store/0123456789abcdefghijklmnopqrstuv-foo-1.0";
    assert_eq!(store(path).as_str(), path);
    assert_eq!(paths_store(path).as_str(), path);
}

#[test]
fn lib_test_store_path_from_tmp_file() {
    let path = "/tmp/test123/0123456789abcdefghijklmnopqrstuv-foo-1.0";
    assert_eq!(store(path).as_str(), path);
    assert_eq!(paths_store(path).as_str(), path);
}

#[test]
fn lib_test_invalid_store_path() {
    let path = "/invalid/prefix/0123456789abcdefghijklmnopqrstuv-foo-1.0";
    assert!(StorePath::try_from(path.to_owned()).is_err());
    assert!(PathsStorePath::try_from(path.to_owned()).is_err());
}

#[test]
fn lib_test_name_and_version_parsing_tmpfile() {
    let path = "/tmp/test123/0123456789abcdefghijklmnopqrstuv-foo-1.0";
    let store_path = store(path);
    let (name, version) =
        store_path.parse_name_and_version().unwrap_or_else(|err| panic!("failed to parse name and version: {err:?}"));
    assert_eq!(name, "foo");
    assert_eq!(version, Some("1.0"));

    let store_path = paths_store(path);
    let (name, version) = store_path.parse_name_and_version().expect("Failed to parse name and version");
    assert_eq!(name, "foo");
    assert_eq!(version, Some(Version::new("1.0")));
}

#[test]
fn lib_test_name_and_version_parsing_store_path() {
    let path = "/nix/store/0123456789abcdefghijklmnopqrstuv-foo-1.0";
    let store_path = store(path);
    let (name, version) =
        store_path.parse_name_and_version().unwrap_or_else(|err| panic!("failed to parse name and version: {err:?}"));
    assert_eq!(name, "foo");
    assert_eq!(version, Some("1.0"));

    let store_path = paths_store(path);
    let (name, version) = store_path.parse_name_and_version().expect("Failed to parse name and version");
    assert_eq!(name, "foo");
    assert_eq!(version, Some(Version::new("1.0")));
}

#[test]
fn test_name_and_version_parsing_hyphenated_version() {
    let store_path = store("/nix/store/0123456789abcdefghijklmnopqrstuv-foo-1.0-bin");
    let (name, version) =
        store_path.parse_name_and_version().unwrap_or_else(|err| panic!("failed to parse name and version: {err:?}"));
    assert_eq!(name, "foo");
    assert_eq!(version, Some("1.0-bin"));
}

#[test]
fn test_name_and_version_parsing_git_hash_version() {
    let store_path = store(
        "/nix/store/0123456789abcdefghijklmnopqrstuv-helix-tree-sitter-pod-cd1931314beafeebc957964c65802961e283411e",
    );
    let (name, version) =
        store_path.parse_name_and_version().unwrap_or_else(|err| panic!("failed to parse name and version: {err:?}"));
    assert_eq!(name, "helix-tree-sitter-pod");
    assert_eq!(version, Some("cd1931314beafeebc957964c65802961e283411e"));
}

#[test]
fn lib_test_name_and_version_parsing_invalid_prefix() {
    let path = "/nix/store/-0123456789abcdefghijklmnopqrstuv-foo-1.0";
    assert!(store(path).parse_name_and_version().is_err());
    assert!(paths_store(path).parse_name_and_version().is_err());
}

#[test]
fn lib_test_name_and_version_parsing_no_version() {
    let path = "/nix/store/0123456789abcdefghijklmnopqrstuv-foo";
    let store_path = store(path);
    let (name, version) = store_path.parse_name_and_version().unwrap();
    assert_eq!(name, "foo");
    assert_eq!(version, None);

    let store_path = paths_store(path);
    let (name, version) = store_path.parse_name_and_version().unwrap();
    assert_eq!(name, "foo");
    assert_eq!(version, None);
}

#[test]
fn lib_test_unusual_store_paths() {
    let paths = vec![
        "/nix/store/0iav54v2brnmi2fv6bssla9k44z62cz7-po",
        "/nix/store/0i5i9mj0n4nry46qvzlmi6h1k9d3pbcn-gtk2-theme-paths.patch",
        "/nix/store/0dslh0d5kbgh40208jlf03n0zkjyc7cl-pkg-config-wrapper-0.29.2-man",
        "/nix/store/0df8rz15sp4ai6md99q5qy9lf0srji5z-0001-Revert-libtool.m4-fix-nm-BSD-flag-detection.patch",
        "/nix/store/0a1bxszp3c9rzphx8b6f5cb9ngbln6xj-unit-nix-daemon-.service",
    ];
    for p in paths {
        let store_path = store(p);
        let (_name, _version) = store_path.parse_name_and_version().unwrap();
        let store_path = paths_store(p);
        let (_name, _version) = store_path.parse_name_and_version().unwrap();
    }
}

#[test]
fn store_path_rejects_malformed_hashes() {
    let short = store("/nix/store/0123456789abcdef-foo-1.0");
    assert!(short.parse_name_and_version().is_err());
    let no_name = store("/nix/store/0123456789abcdefghijklmnopqrstuv-");
    assert!(no_name.parse_name_and_version().is_err());
    let bad_char = store("/nix/store/0123456789abcdefghijklmnopqrstu_-foo-1.0");
    assert!(bad_char.parse_name_and_version().is_err());
}

#[test]
fn store_path_accepts_store_directory_itself() {
    assert!(StorePath::try_from("/nix/store".to_owned()).is_ok());
    assert!(StorePath::try_from("/nix/storefoo".to_owned()).is_err());
}
