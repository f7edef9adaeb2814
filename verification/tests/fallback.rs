use dix::fallback::{
    connect_outcome, connected_backends, finish_query, BackendKind, BackendPlan, ConnectFailure, FallbackAction,
    FallbackQuery, QueryFailure,
};

/// A stand-in backend: whether connecting fails and whether queries fail.
struct Mock {
    fail_connect: bool,
    fail_query: bool,
}

fn mock(fail_connect: bool, fail_query: bool) -> Mock {
    Mock { fail_connect, fail_query }
}

/// Connects every mock; returns which are connected and the outcome.
fn connect(mocks: &[Mock]) -> (Vec<bool>, Result<(), ConnectFailure>) {
    let connected: Vec<bool> = mocks.iter().map(|m| !m.fail_connect).collect();
    let failures = mocks.iter().filter(|m| m.fail_connect).count();
    let outcome = connect_outcome(&connected, failures);
    (connected, outcome)
}

/// Runs a query as the combined backend does; returns the answering index.
fn query(mocks: &[Mock], connected: &[bool]) -> Result<usize, QueryFailure> {
    let mut state = FallbackQuery::start();
    loop {
        match state.next_action(connected) {
            FallbackAction::Ask(i) => {
                if mocks[i].fail_query {
                    state = state.record_failure(i);
                } else {
                    return Ok(i);
                }
            },
            FallbackAction::GiveUp(failure) => return Err(failure),
        }
    }
}

#[test]
fn test_connect_fallback() {
    let mocks = [mock(true, false), mock(false, false)];
    let (connected, outcome) = connect(&mocks);
    assert!(outcome.is_ok());
    assert!(connected.iter().any(|c| *c));
}

#[test]
fn test_connect_all_fail() {
    let mocks = [mock(true, false), mock(true, false)];
    let (connected, outcome) = connect(&mocks);
    assert_eq!(outcome, Err(ConnectFailure::AllFailed(2)));
    assert!(!connected.iter().any(|c| *c));
}

#[test]
fn test_query_fallback() {
    let mocks = [mock(false, true), mock(false, false)];
    let (connected, outcome) = connect(&mocks);
    outcome.unwrap();
    assert_eq!(query(&mocks, &connected), Ok(1));
}

#[test]
fn test_path_query_fallback() {
    let mocks = [mock(false, true), mock(false, false)];
    let (connected, outcome) = connect(&mocks);
    outcome.unwrap();
    let answer = query(&mocks, &connected);
    assert!(answer.is_ok());
    assert_eq!(answer.unwrap(), 1);
}

#[test]
fn test_query_skip_unconnected() {
    let mocks = [mock(true, false), mock(false, false)];
    let (connected, outcome) = connect(&mocks);
    outcome.unwrap();
    assert_eq!(query(&mocks, &connected), Ok(1));

    let mocks = [mock(true, false), mock(true, false), mock(false, false)];
    let (connected, outcome) = connect(&mocks);
    outcome.unwrap();
    assert_eq!(query(&mocks, &connected), Ok(2));
    let (connected, outcome) = connect(&mocks);
    assert!(outcome.is_ok());
    assert!(connected.iter().any(|c| *c));
}

#[test]
fn test_query_all_fail() {
    let mocks = [mock(false, true), mock(false, true)];
    let (connected, outcome) = connect(&mocks);
    outcome.unwrap();
    assert_eq!(query(&mocks, &connected), Err(QueryFailure::AllFailed(2)));
}

#[test]
fn no_backends_means_nothing_to_connect_or_ask() {
    let (connected, outcome) = connect(&[]);
    assert_eq!(outcome, Err(ConnectFailure::NoBackends));
    assert_eq!(query(&[], &connected), Err(QueryFailure::NoConnectedBackend));
    assert!(connected_backends(&connected).is_empty());
}

#[test]
fn plans_follow_the_correctness_setting() {
    assert_eq!(
        BackendPlan::for_correctness(false).backends,
        vec![BackendKind::Database, BackendKind::ImmutableDatabase, BackendKind::Command]
    );
    assert_eq!(BackendPlan::for_correctness(true).backends, vec![BackendKind::Database, BackendKind::Command]);
}

#[test]
fn only_connected_backends_are_closed() {
    assert_eq!(connected_backends(&[false, true, false, true]), vec![1, 3]);
}

#[test]
fn query_failure_wins_over_close_failure() {
    assert_eq!(finish_query::<u32, &str>(Err("query"), Err("close")), Err("query"));
    assert_eq!(finish_query::<u32, &str>(Ok(5), Err("close")), Err("close"));
    assert_eq!(finish_query::<u32, &str>(Ok(5), Ok(())), Ok(5));
}
