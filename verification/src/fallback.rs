//! The decisions of a store backend made of several backends: which
//! backends it is made of, which backend a query asks next, and what a round
//! of connects, queries and closes comes to. The backends themselves do
//! their work outside; they report back whether they are connected and
//! whether a call failed.
use vstd::prelude::*;
use crate::engine::{scan_from, lemma_scan_from};

verus! {

/// A backend that a combined backend can be made of.
#[derive(Debug, Clone, Copy, PartialEq, Eq, Structural)]
pub enum BackendKind {
    /// The store's sqlite database, opened for reading.
    Database,
    /// The store's sqlite database, opened as immutable; usable where the
    /// database is read-only, though a concurrent writer can go unnoticed.
    ImmutableDatabase,
    /// The `nix` and `nix-store` commands.
    Command,
}

/// The backends of a combined backend, in the order they are tried.
pub struct BackendPlan {
    pub backends: Vec<BackendKind>,
}

/// The fast plan: the database, the database opened as immutable, then the
/// commands.
pub open spec fn fast_plan() -> Seq<BackendKind> {
    seq![BackendKind::Database, BackendKind::ImmutableDatabase, BackendKind::Command]
}

/// The correct plan: the database, then the commands; the immutable
/// database is left out because it can read a database that is being
/// written.
pub open spec fn correct_plan() -> Seq<BackendKind> {
    seq![BackendKind::Database, BackendKind::Command]
}

impl BackendPlan {
    /// The plan that favours speed and availability.
    pub fn default_fast() -> (r: BackendPlan)
        ensures
            r.backends@ == fast_plan(),
    {
        let mut backends: Vec<BackendKind> = Vec::new();
        backends.push(BackendKind::Database);
        backends.push(BackendKind::ImmutableDatabase);
        backends.push(BackendKind::Command);
        assert(backends@ =~= fast_plan());
        BackendPlan { backends }
    }

    /// The plan that never reads a database that may be changing.
    pub fn default_correct() -> (r: BackendPlan)
        ensures
            r.backends@ == correct_plan(),
    {
        let mut backends: Vec<BackendKind> = Vec::new();
        backends.push(BackendKind::Database);
        backends.push(BackendKind::Command);
        assert(backends@ =~= correct_plan());
        BackendPlan { backends }
    }

    /// The correct plan where correctness is forced, else the fast one.
    pub fn for_correctness(force_correctness: bool) -> (r: BackendPlan)
        ensures
            r.backends@ == (if force_correctness { correct_plan() } else { fast_plan() }),
    {
        if force_correctness {
            Self::default_correct()
        } else {
            Self::default_fast()
        }
    }
}

/// Why connecting a combined backend failed.
#[derive(Debug, Clone, Copy, PartialEq, Eq, Structural)]
pub enum ConnectFailure {
    /// No backend failed, and none is connected: there was nothing to
    /// connect.
    NoBackends,
    /// Every connect failed; the count of failures.
    AllFailed(usize),
}

/// Whether any backend is connected.
pub open spec fn any_connected(connected: Seq<bool>) -> bool {
    exists|k: int| 0 <= k < connected.len() && connected[k]
}

/// What connecting every backend comes to: success where any backend is
/// connected afterwards, though others failed; otherwise the failure.
pub fn connect_outcome(connected: &[bool], failures: usize) -> (r: Result<(), ConnectFailure>)
    ensures
        r is Ok <==> any_connected(connected@),
        r == Err::<(), ConnectFailure>(ConnectFailure::NoBackends) <==> !any_connected(connected@) && failures == 0,
        r == Err::<(), ConnectFailure>(ConnectFailure::AllFailed(failures)) <==> !any_connected(connected@) && failures > 0,
{
    let mut k: usize = 0;
    while k < connected.len()
        invariant
            k <= connected@.len(),
            forall|j: int| 0 <= j < k ==> !connected@[j],
        decreases connected@.len() - k,
    {
        if connected[k] {
            return Ok(());
        }
        k = k + 1;
    }
    if failures == 0 {
        Err(ConnectFailure::NoBackends)
    } else {
        Err(ConnectFailure::AllFailed(failures))
    }
}

/// Whether backend `k` is connected.
pub open spec fn connected_at(connected: Seq<bool>) -> spec_fn(int) -> bool {
    |k: int| connected[k]
}

/// The first connected backend at or after `from`, or `connected.len()`.
pub open spec fn first_connected_from(connected: Seq<bool>, from: int) -> int {
    scan_from(connected_at(connected), from, connected.len() as int)
}

/// The backend that answers a query: the first connected backend whose
/// query succeeds, among those at or after `from`.
pub open spec fn answering_backend(connected: Seq<bool>, succeeded: Seq<bool>, from: int) -> Option<int> {
    let k = scan_from(|j: int| connected[j] && succeeded[j], from, connected.len() as int);
    if k < connected.len() {
        Some(k)
    } else {
        None
    }
}

/// Why a query failed on every backend.
#[derive(Debug, Clone, Copy, PartialEq, Eq, Structural)]
pub enum QueryFailure {
    /// No backend was connected, so none was asked.
    NoConnectedBackend,
    /// Every connected backend was asked and failed; the count of failures.
    AllFailed(usize),
}

/// What a query does next.
#[derive(Debug, Clone, Copy, PartialEq, Eq, Structural)]
pub enum FallbackAction {
    /// Ask this backend.
    Ask(usize),
    /// Give up with this failure.
    GiveUp(QueryFailure),
}

/// A query in progress: the backends before `next` have been passed over,
/// and `failures` of them failed.
#[derive(Debug, Clone, Copy, PartialEq, Eq, Structural)]
pub struct FallbackQuery {
    pub next: usize,
    pub failures: usize,
}

impl FallbackQuery {
    /// A query that has asked no backend yet.
    pub fn start() -> (r: FallbackQuery)
        ensures
            r.next == 0,
            r.failures == 0,
    {
        FallbackQuery { next: 0, failures: 0 }
    }

    /// The next step: ask the first connected backend at or after `next`,
    /// or give up where there is none.
    pub fn next_action(&self, connected: &[bool]) -> (r: FallbackAction)
        ensures
            ({
                let k = first_connected_from(connected@, self.next as int);
                &&& self.next <= connected@.len() && k < connected@.len() ==> r == FallbackAction::Ask(k as usize)
                &&& !(self.next <= connected@.len() && k < connected@.len()) ==> r == FallbackAction::GiveUp(
                    if self.failures == 0 { QueryFailure::NoConnectedBackend } else { QueryFailure::AllFailed(self.failures) },
                )
            }),
    {
        let n = connected.len();
        if self.next <= n {
            proof {
                lemma_scan_from(connected_at(connected@), self.next as int, n as int);
            }
            let mut k = self.next;
            while k < n
                invariant
                    self.next <= k <= n,
                    n == connected@.len(),
                    scan_from(connected_at(connected@), self.next as int, n as int) == scan_from(connected_at(connected@), k as int, n as int),
                decreases n - k,
            {
                if connected[k] {
                    return FallbackAction::Ask(k);
                }
                k = k + 1;
            }
        }
        if self.failures == 0 {
            FallbackAction::GiveUp(QueryFailure::NoConnectedBackend)
        } else {
            FallbackAction::GiveUp(QueryFailure::AllFailed(self.failures))
        }
    }

    /// The query after backend `asked` failed: it goes on after that
    /// backend, with one failure more.
    pub fn record_failure(&self, asked: usize) -> (r: FallbackQuery)
        requires
            asked < usize::MAX,
            self.failures < usize::MAX,
        ensures
            r.next == asked + 1,
            r.failures == self.failures + 1,
    {
        FallbackQuery { next: asked + 1, failures: self.failures + 1 }
    }
}

/// Asking backends as `next_action` says, and going on past each failure,
/// reaches the backend that answers: where the backend asked fails, the
/// answering backend is the one found after it; where it succeeds, it is
/// that backend; where no connected backend is left, none answers.
pub proof fn lemma_fallback_reaches_answer(connected: Seq<bool>, succeeded: Seq<bool>, from: int)
    requires
        0 <= from <= connected.len(),
        succeeded.len() == connected.len(),
    ensures
        ({
            let k = first_connected_from(connected, from);
            &&& k == connected.len() ==> answering_backend(connected, succeeded, from) is None
            &&& k < connected.len() && succeeded[k] ==> answering_backend(connected, succeeded, from) == Some(k)
            &&& k < connected.len() && !succeeded[k] ==> answering_backend(connected, succeeded, from)
                == answering_backend(connected, succeeded, k + 1)
        }),
    decreases connected.len() - from,
{
    let n = connected.len() as int;
    let p = |j: int| connected[j] && succeeded[j];
    lemma_scan_from(connected_at(connected), from, n);
    lemma_scan_from(p, from, n);
    if from < n {
        if connected[from] {
            assert(first_connected_from(connected, from) == from);
        } else {
            lemma_fallback_reaches_answer(connected, succeeded, from + 1);
            assert(scan_from(connected_at(connected), from, n) == scan_from(connected_at(connected), from + 1, n));
            assert(scan_from(p, from, n) == scan_from(p, from + 1, n));
        }
    }
}

/// The backends to close: those that are connected, in order.
pub fn connected_backends(connected: &[bool]) -> (r: Vec<usize>)
    ensures
        forall|j: int| 0 <= j < r@.len() ==> r@[j] < connected@.len() && connected@[r@[j] as int],
        forall|k: int| 0 <= k < connected@.len() && connected@[k] ==> r@.contains(k as usize),
        forall|i: int, j: int| 0 <= i < j < r@.len() ==> r@[i] < r@[j],
{
    let mut r: Vec<usize> = Vec::new();
    let mut k: usize = 0;
    while k < connected.len()
        invariant
            k <= connected@.len(),
            forall|j: int| 0 <= j < r@.len() ==> r@[j] < k && connected@[r@[j] as int],
            forall|t: int| 0 <= t < k && connected@[t] ==> r@.contains(t as usize),
            forall|i: int, j: int| 0 <= i < j < r@.len() ==> r@[i] < r@[j],
        decreases connected@.len() - k,
    {
        if connected[k] {
            let ghost before = r@;
            r.push(k);
            proof {
                assert forall|t: int| 0 <= t < k + 1 && connected@[t] implies r@.contains(t as usize) by {
                    if t < k {
                        assert(before.contains(t as usize));
                        let w = choose|w: int| 0 <= w < before.len() && before[w] == t as usize;
                        assert(r@[w] == t as usize);
                    } else {
                        assert(r@[r@.len() - 1] == k);
                    }
                }
            }
        }
        k = k + 1;
    }
    r
}

/// What a query run between a connect and a close comes to: the query's
/// failure where it failed, else the close's failure where that failed,
/// else the query's value.
pub fn finish_query<T, E>(result: Result<T, E>, closed: Result<(), E>) -> (r: Result<T, E>)
    ensures
        r == (match result {
            Ok(v) => match closed {
                Ok(_) => Ok(v),
                Err(e) => Err(e),
            },
            Err(e) => Err(e),
        }),
{
    match result {
        Ok(value) => match closed {
            Ok(()) => Ok(value),
            Err(error) => Err(error),
        },
        Err(error) => Err(error),
    }
}

} // verus!
