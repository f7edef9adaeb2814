use dix::paths::{
    split_name_and_version, store_hash_prefix_len, store_name_from_path, tmp_store_name_from_path, validate_store_name,
    StoreNameError,
};
use dix::store_path::{StorePath, StorePathError};
use dix::version::Version;

const HASH: &str = "0123456789abcdefghijklmnopqrstuv";

#[test]
fn store_names_come_from_store_and_tmp_paths() {
    assert_eq!(store_name_from_path(&format!("/nix/store/{HASH}-foo-1.0")), Ok("foo-1.0"));
    assert_eq!(store_name_from_path(&format!("/tmp/a/b/{HASH}-foo-1.0")), Ok("foo-1.0"));
    assert_eq!(tmp_store_name_from_path(&format!("/tmp/x/{HASH}-bar")), Some(format!("{HASH}-bar").as_str()));
    assert_eq!(tmp_store_name_from_path("/tmp/x/y"), None);
}

#[test]
fn store_name_errors_name_their_cause() {
    assert_eq!(store_name_from_path("/usr/lib/foo"), Err(StoreNameError::NotStoreFormat));
    assert_eq!(store_name_from_path("/tmp/x/y"), Err(StoreNameError::NoTemporaryStoreName));
    assert_eq!(validate_store_name("nodash"), Err(StoreNameError::NoHashSeparator));
    assert_eq!(validate_store_name("short-foo"), Err(StoreNameError::InvalidHash));
    assert_eq!(validate_store_name(&format!("{HASH}-foo")), Ok("foo"));
    assert_eq!(split_name_and_version(""), Err(StoreNameError::NoName));
    assert_eq!(split_name_and_version("-1.0"), Err(StoreNameError::NoName));
}

#[test]
fn versions_start_at_a_dash_before_a_digit() {
    assert_eq!(split_name_and_version("foo-bar-1.0-man"), Ok(("foo-bar", Some(Version::new("1.0-man")))));
    assert_eq!(split_name_and_version("foo-bar"), Ok(("foo-bar", None)));
    assert_eq!(store_hash_prefix_len(&format!("{HASH}-x")), Some(32));
    assert_eq!(store_hash_prefix_len(&format!("{HASH}x")), None);
}

#[test]
fn store_path_errors_name_their_cause() {
    assert_eq!(StorePath::try_from("/usr/bin".to_owned()).unwrap_err(), StorePathError::OutsideStore);
    let bad = StorePath::try_from(format!("/nix/store/{HASH}")).unwrap();
    assert_eq!(bad.parse_name_and_version().unwrap_err(), StorePathError::NotStoreFormat);
    let parent = StorePath::try_from("/nix/store/..".to_owned()).unwrap();
    assert_eq!(parent.parse_name_and_version().unwrap_err(), StorePathError::NoFileName);
}
