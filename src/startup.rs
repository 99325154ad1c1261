//! Startup sequencing: which sessions get a pipe, in what order and with what
//! settle delay, and the baseline cursor table that results.
use vstd::prelude::*;
use crate::config::{Session, unique_names};
use crate::cursor::CursorTable;
use crate::backup::{due_sessions, lemma_due_sessions, wants_backup};

verus! {

/// Milliseconds to wait after opening one pipe before handling the next
/// session; this bounds simultaneous process-spawn load.
pub const SETTLE_DELAY_MS: u64 = 20;

/// One step of startup, for the session at the given position.
#[derive(PartialEq, Eq, Structural, Clone, Copy, Debug)]
pub enum StartupStep {
    /// The session has no game: warn and leave it out of all scheduling.
    Skip(usize),
    /// Open the session's pipe, then wait `settle_ms` before the next step.
    Open { session: usize, settle_ms: u64 },
}

/// The step owed to the session at position `i`.
pub open spec fn step_for(i: usize, s: Session) -> StartupStep {
    if s.game.is_some() {
        StartupStep::Open { session: i, settle_ms: SETTLE_DELAY_MS }
    } else {
        StartupStep::Skip(i)
    }
}

/// Baseline cursors of the first `n` sessions: one entry for each session with
/// a game whose pipe opened and whose line count was read, in session order.
pub open spec fn baseline_entries(sessions: Seq<Session>, baselines: Seq<Option<u64>>, n: int) -> Seq<
    (Seq<char>, u64),
>
    decreases n,
{
    if n <= 0 {
        Seq::empty()
    } else if sessions[n - 1].game.is_some() && baselines[n - 1].is_some() {
        baseline_entries(sessions, baselines, n - 1).push((sessions[n - 1].name@, baselines[n - 1].unwrap()))
    } else {
        baseline_entries(sessions, baselines, n - 1)
    }
}

/// The startup plan: one step per session, strictly in list order.
pub fn startup_plan(sessions: &Vec<Session>) -> (r: Vec<StartupStep>)
    ensures
        r@.len() == sessions@.len(),
        forall|i: int| 0 <= i < r@.len() ==> #[trigger] r@[i] == step_for(i as usize, sessions@[i]),
{
    let mut plan: Vec<StartupStep> = Vec::new();
    let mut i: usize = 0;
    while i < sessions.len()
        invariant
            i <= sessions@.len(),
            plan@.len() == i,
            forall|j: int| 0 <= j < i ==> #[trigger] plan@[j] == step_for(j as usize, sessions@[j]),
        decreases sessions@.len() - i,
    {
        if sessions[i].game.is_some() {
            plan.push(StartupStep::Open { session: i, settle_ms: SETTLE_DELAY_MS });
        } else {
            plan.push(StartupStep::Skip(i));
        }
        i = i + 1;
    }
    plan
}

/// Every baseline entry belongs to a session with a game among the first `n`.
pub proof fn lemma_baseline_names(sessions: Seq<Session>, baselines: Seq<Option<u64>>, n: int)
    requires
        0 <= n <= sessions.len(),
        baselines.len() == sessions.len(),
    ensures
        forall|k: int|
            0 <= k < baseline_entries(sessions, baselines, n).len() ==> exists|j: int|
                0 <= j < n && (#[trigger] sessions[j]).game.is_some() && sessions[j].name@
                    == (#[trigger] baseline_entries(sessions, baselines, n)[k]).0,
    decreases n,
{
    if n > 0 {
        lemma_baseline_names(sessions, baselines, n - 1);
        let prev = baseline_entries(sessions, baselines, n - 1);
        let cur = baseline_entries(sessions, baselines, n);
        assert forall|k: int| 0 <= k < cur.len() implies exists|j: int|
            0 <= j < n && (#[trigger] sessions[j]).game.is_some() && sessions[j].name@ == (
            #[trigger] cur[k]).0 by {
            if k < prev.len() {
                assert(cur[k] == prev[k]);
                let j = choose|j: int|
                    0 <= j < n - 1 && (#[trigger] sessions[j]).game.is_some() && sessions[j].name@ == prev[k].0;
                assert(sessions[j].game.is_some());
            } else {
                assert(sessions[n - 1].game.is_some());
            }
        }
    }
}

/// Builds the cursor table from the line counts read at startup:
/// `baselines[i]` is the count of session `i`, or `None` where its pipe
/// could not be opened or it has no game.
pub fn baseline_table(sessions: &Vec<Session>, baselines: &Vec<Option<u64>>) -> (r: CursorTable)
    requires
        unique_names(sessions@),
        baselines@.len() == sessions@.len(),
    ensures
        r.wf(),
        r@ == baseline_entries(sessions@, baselines@, sessions@.len() as int),
{
    let mut table = CursorTable::new();
    let mut i: usize = 0;
    while i < sessions.len()
        invariant
            i <= sessions@.len(),
            baselines@.len() == sessions@.len(),
            unique_names(sessions@),
            table.wf(),
            table@ == baseline_entries(sessions@, baselines@, i as int),
        decreases sessions@.len() - i,
    {
        if sessions[i].game.is_some() {
            if let Some(count) = baselines[i] {
                proof {
                    lemma_baseline_names(sessions@, baselines@, i as int);
                    assert forall|k: int| 0 <= k < table@.len() implies (#[trigger] table@[k]).0
                        != sessions@[i as int].name@ by {
                        let j = choose|j: int|
                            0 <= j < i && (#[trigger] sessions@[j]).game.is_some() && sessions@[j].name@
                                == table@[k].0;
                        assert(sessions@[j].name@ != sessions@[i as int].name@);
                    }
                }
                table.push(sessions[i].name.clone(), count);
            }
        }
        i = i + 1;
    }
    table
}

/// A session without a game is skipped at startup, gets no cursor, and is
/// never listed for a backup at any tick.
pub proof fn lemma_gameless_session_excluded(
    sessions: Seq<Session>,
    baselines: Seq<Option<u64>>,
    i: int,
    tick: int,
)
    requires
        unique_names(sessions),
        baselines.len() == sessions.len(),
        0 <= i < sessions.len(),
        sessions[i].game.is_none(),
    ensures
        step_for(i as usize, sessions[i]) == StartupStep::Skip(i as usize),
        forall|k: int|
            0 <= k < baseline_entries(sessions, baselines, sessions.len() as int).len()
                ==> (#[trigger] baseline_entries(sessions, baselines, sessions.len() as int)[k]).0 != sessions[i].name@,
        !wants_backup(sessions[i], tick),
        !due_sessions(sessions, tick, sessions.len() as int).contains(i),
{
    let n = sessions.len() as int;
    lemma_baseline_names(sessions, baselines, n);
    lemma_due_sessions(sessions, tick, n);
    assert forall|k: int| 0 <= k < baseline_entries(sessions, baselines, n).len() implies (
    #[trigger] baseline_entries(sessions, baselines, n)[k]).0 != sessions[i].name@ by {
        let j = choose|j: int|
            0 <= j < n && (#[trigger] sessions[j]).game.is_some() && sessions[j].name@ == baseline_entries(
                sessions,
                baselines,
                n,
            )[k].0;
        assert(j != i);
    }
}

} // verus!
