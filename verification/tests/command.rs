use dix::command::{parse_path_info_size_output, parse_store_path_output, CommandBackend, OutputError, StoreQuery};
use dix::store_path::StorePath;

const FAKE_PATHS: &str = "\
/nix/store/0j3jwpcy0r9fk8ymmknq7d5bkjwg6kr3-gcc-15.2.0-lib
/nix/store/0j7cqjjjrx3dm875bpkwq8sqhc4c480f-sparklines-1.7-tex
/nix/store/0j8ydh92l9hdjibg5d24nasxzha9ibvr-mbedtls-3.6.5";

fn path_info_output() -> String {
    FAKE_PATHS
        .lines()
        .enumerate()
        .map(|(index, path)| format!("{path} {}", index + 1))
        .collect::<Vec<String>>()
        .join("\n")
}

#[test]
fn store_url_is_added_to_nix_store_commands() {
    let backend = CommandBackend::default().store_url("ssh://builder".to_owned());
    let (_, args) = backend.nix_store_command();

    assert_eq!(args, vec!["--store", "ssh://builder"]);
}

#[test]
fn parse_store_path_output_reads_paths() {
    let mut paths = parse_store_path_output(FAKE_PATHS).unwrap();
    paths.sort();
    let mut expected = FAKE_PATHS.lines().map(|path| StorePath::try_from(path.to_owned()).unwrap()).collect::<Vec<_>>();
    expected.sort();

    assert_eq!(paths, expected);
}

#[test]
fn parse_path_info_size_output_reads_nar_sizes() {
    let info = parse_path_info_size_output(&path_info_output()).unwrap();
    assert_eq!(info.len(), FAKE_PATHS.lines().count());
    assert_eq!(info[0].nar_size(), 1);
    assert_eq!(info[2].nar_size(), 3);
}

#[test]
fn path_info_lines_report_their_errors() {
    assert_eq!(parse_path_info_size_output("   \n").unwrap_err(), OutputError::MissingPath);
    assert_eq!(
        parse_path_info_size_output("/nix/store/0j3jwpcy0r9fk8ymmknq7d5bkjwg6kr3-gcc").unwrap_err(),
        OutputError::MissingSize
    );
    assert_eq!(
        parse_path_info_size_output("/nix/store/0j3jwpcy0r9fk8ymmknq7d5bkjwg6kr3-gcc 12x").unwrap_err(),
        OutputError::InvalidSize
    );
    assert!(matches!(parse_path_info_size_output("/usr/lib/gcc 12").unwrap_err(), OutputError::InvalidPath(_)));
    assert!(matches!(parse_store_path_output("/usr/lib/gcc").unwrap_err(), OutputError::InvalidPath(_)));
}

#[test]
fn path_info_reads_signed_sizes_and_crlf_lines() {
    let output = "/nix/store/0j3jwpcy0r9fk8ymmknq7d5bkjwg6kr3-gcc\t+42\r\n/nix/store/0j7cqjjjrx3dm875bpkwq8sqhc4c480f-tex  -7 extra\n";
    let info = parse_path_info_size_output(output).unwrap();
    assert_eq!(info.len(), 2);
    assert_eq!(info[0].nar_size(), 42);
    assert_eq!(info[1].nar_size(), -7);
    assert_eq!(info[1].path().as_str(), "/nix/store/0j7cqjjjrx3dm875bpkwq8sqhc4c480f-tex");
    assert!(parse_path_info_size_output("").unwrap().is_empty());
    assert_eq!(
        parse_path_info_size_output("/nix/store/0j3jwpcy0r9fk8ymmknq7d5bkjwg6kr3-gcc 9223372036854775808").unwrap_err(),
        OutputError::InvalidSize
    );
}

#[test]
fn command_backend_describes_itself() {
    let backend = CommandBackend::new("my-nix-store".to_owned(), "my-nix".to_owned());
    assert_eq!(backend.display_text(), "CommandBackend(nix='my-nix', nix-store='my-nix-store')");
    let remote = CommandBackend::default().store_url("ssh://builder".to_owned());
    assert_eq!(remote.display_text(), "CommandBackend(nix='nix', nix-store='nix-store', store='ssh://builder')");
}

#[test]
fn query_commands_name_their_arguments() {
    let backend = CommandBackend::default();
    let (program, args) = backend.query_command(StoreQuery::Requisites, "/nix/store/x");
    assert_eq!(program, "nix-store");
    assert_eq!(args, vec!["--query", "--requisites", "/nix/store/x"]);
    let (program, args) = backend.query_command(StoreQuery::References, "/run/current-system/sw");
    assert_eq!(program, "nix-store");
    assert_eq!(args, vec!["--query", "--references", "/run/current-system/sw"]);
    let remote = CommandBackend::default().store_url("ssh://builder".to_owned());
    let (program, args) = remote.query_command(StoreQuery::PathInfo, "/nix/store/x");
    assert_eq!(program, "nix");
    assert_eq!(args, vec!["path-info", "--store", "ssh://builder", "--recursive", "--size", "/nix/store/x"]);
}
