//! Tick-driven backup trigger: which sessions owe a backup at a given tick,
//! and with which retention.
use vstd::prelude::*;
use crate::config::{GameConfig, Session};
use vstd::arithmetic::div_mod::lemma_fundamental_div_mod;

verus! {

/// How many backups the engine keeps after producing a new one.
#[derive(PartialEq, Eq, Structural, Clone, Copy, Debug)]
pub enum Retention {
    Keep(u64),
    Unbounded,
}

/// One call owed to the backup engine.
pub struct BackupRequest {
    /// Position of the session in the session list.
    pub session: usize,
    pub file_path: String,
    pub destination: String,
    pub interval: u64,
    pub keep: Retention,
}

pub open spec fn retention_of(keep: Option<u64>) -> Retention {
    match keep {
        Some(k) => Retention::Keep(k),
        None => Retention::Unbounded,
    }
}

/// The trigger: on a multiple of the interval, strictly after the first one.
pub open spec fn is_due(tick: int, interval: int) -> bool {
    interval > 0 && tick % interval == 0 && tick > interval
}

/// A session owes a backup at `tick` when it has a game with a world path and
/// an interval whose boundary the tick crosses.
pub open spec fn wants_backup(s: Session, tick: int) -> bool {
    match s.game {
        Some(g) => g.file_path.is_some() && g.backup_interval.is_some() && is_due(
            tick,
            g.backup_interval.unwrap() as int,
        ),
        None => false,
    }
}

/// Positions among the first `n` sessions that owe a backup at `tick`, in order.
pub open spec fn due_sessions(sessions: Seq<Session>, tick: int, n: int) -> Seq<int>
    decreases n,
{
    if n <= 0 {
        Seq::empty()
    } else if wants_backup(sessions[n - 1], tick) {
        due_sessions(sessions, tick, n - 1).push(n - 1)
    } else {
        due_sessions(sessions, tick, n - 1)
    }
}

/// The request owed for session `s` at position `i`.
pub open spec fn request_for(r: BackupRequest, i: int, s: Session, destination: Seq<char>) -> bool {
    let g = s.game.unwrap();
    &&& r.session == i
    &&& r.file_path@ == g.file_path.unwrap()@
    &&& r.destination@ == destination
    &&& r.interval == g.backup_interval.unwrap()
    &&& r.keep == retention_of(g.backup_keep)
}

/// The sessions listed at a tick are exactly those that owe a backup, each
/// once, in session order.
pub proof fn lemma_due_sessions(sessions: Seq<Session>, tick: int, n: int)
    requires
        0 <= n <= sessions.len(),
    ensures
        forall|k: int|
            0 <= k < due_sessions(sessions, tick, n).len() ==> 0 <= #[trigger] due_sessions(sessions, tick, n)[k] < n
                && wants_backup(sessions[due_sessions(sessions, tick, n)[k]], tick),
        forall|a: int, b: int|
            0 <= a < b < due_sessions(sessions, tick, n).len() ==> #[trigger] due_sessions(sessions, tick, n)[a]
                < #[trigger] due_sessions(sessions, tick, n)[b],
        forall|i: int|
            0 <= i < n ==> (#[trigger] due_sessions(sessions, tick, n).contains(i) <==> wants_backup(sessions[i], tick)),
    decreases n,
{
    if n > 0 {
        lemma_due_sessions(sessions, tick, n - 1);
        let p = due_sessions(sessions, tick, n - 1);
        let d = due_sessions(sessions, tick, n);
        assert forall|i: int| 0 <= i < n implies (#[trigger] d.contains(i) <==> wants_backup(sessions[i], tick)) by {
            if d.contains(i) {
                let k = choose|k: int| 0 <= k < d.len() && d[k] == i;
                if k < p.len() {
                    assert(p[k] == d[k]);
                }
            }
            if wants_backup(sessions[i], tick) {
                if i < n - 1 {
                    assert(p.contains(i));
                    let k = choose|k: int| 0 <= k < p.len() && p[k] == i;
                    assert(d[k] == i);
                } else {
                    assert(d[d.len() - 1] == i);
                }
            }
        }
    }
}

/// The boundary at the interval itself is passed over: the first backup comes
/// at twice the interval, and then at every further multiple.
pub proof fn lemma_first_backup_at_second_boundary(interval: int, k: int)
    requires
        interval > 0,
        k >= 0,
    ensures
        !is_due(interval, interval),
        is_due(k * interval, interval) <==> k >= 2,
        forall|tick: int| #[trigger] is_due(tick, interval) ==> tick >= 2 * interval,
{
    assert((k * interval) % interval == 0) by (nonlinear_arith)
        requires interval > 0, k >= 0;
    assert(k >= 2 ==> k * interval > interval) by (nonlinear_arith)
        requires interval > 0;
    assert(k < 2 ==> k * interval <= interval) by (nonlinear_arith)
        requires interval > 0, k >= 0;
    assert forall|tick: int| #[trigger] is_due(tick, interval) implies tick >= 2 * interval by {
        let q = tick / interval;
        lemma_fundamental_div_mod(tick, interval);
        assert(tick == q * interval) by (nonlinear_arith)
            requires tick == interval * q + tick % interval, tick % interval == 0;
        assert(q >= 2) by (nonlinear_arith)
            requires tick > interval, tick == q * interval, interval > 0;
        assert(q * interval >= 2 * interval) by (nonlinear_arith)
            requires q >= 2, interval > 0;
    }
}

/// Retention for an optional keep count: absent means unbounded.
pub fn retention(keep: Option<u64>) -> (r: Retention)
    ensures
        r == retention_of(keep),
{
    match keep {
        Some(k) => Retention::Keep(k),
        None => Retention::Unbounded,
    }
}

/// Whether `tick` crosses a backup boundary of `interval`.
pub fn backup_due(tick: u64, interval: u64) -> (r: bool)
    ensures
        r == is_due(tick as int, interval as int),
{
    interval > 0 && tick % interval == 0 && tick > interval
}

fn request(i: usize, g: &GameConfig, destination: &String) -> (r: Option<BackupRequest>)
    ensures
        r.is_some() <==> (g.file_path.is_some() && g.backup_interval.is_some()),
        r.is_some() ==> ({
            let q = r.unwrap();
            &&& q.session == i
            &&& q.file_path@ == g.file_path.unwrap()@
            &&& q.destination@ == destination@
            &&& q.interval == g.backup_interval.unwrap()
            &&& q.keep == retention_of(g.backup_keep)
        }),
{
    match (&g.file_path, g.backup_interval) {
        (Some(path), Some(interval)) => Some(
            BackupRequest {
                session: i,
                file_path: path.clone(),
                destination: destination.clone(),
                interval,
                keep: retention(g.backup_keep),
            },
        ),
        _ => None,
    }
}

/// Drives the backup trigger; its tick counts elapsed scheduler cycles.
pub struct BackupScheduler {
    pub tick: u64,
}

impl BackupScheduler {
    pub fn new() -> (r: BackupScheduler)
        ensures
            r.tick == 0,
    {
        BackupScheduler { tick: 0 }
    }

    /// One cycle: advance the tick, then list, in session order, one backup
    /// request for each session whose boundary the new tick crosses.
    pub fn cycle(&mut self, sessions: &Vec<Session>, destination: &String) -> (r: Vec<BackupRequest>)
        requires
            old(self).tick < u64::MAX,
        ensures
            final(self).tick == old(self).tick + 1,
            r@.len() == due_sessions(sessions@, final(self).tick as int, sessions@.len() as int).len(),
            forall|k: int|
                0 <= k < r@.len() ==> {
                    let i = due_sessions(sessions@, final(self).tick as int, sessions@.len() as int)[k];
                    request_for(#[trigger] r@[k], i, sessions@[i], destination@)
                },
    {
        self.tick = self.tick + 1;
        let tick = self.tick;
        let mut out: Vec<BackupRequest> = Vec::new();
        let mut i: usize = 0;
        while i < sessions.len()
            invariant
                i <= sessions@.len(),
                out@.len() == due_sessions(sessions@, tick as int, i as int).len(),
                forall|k: int|
                    0 <= k < out@.len() ==> {
                        let j = due_sessions(sessions@, tick as int, i as int)[k];
                        request_for(#[trigger] out@[k], j, sessions@[j], destination@)
                    },
            decreases sessions@.len() - i,
        {
            if let Some(g) = &sessions[i].game {
                if let Some(interval) = g.backup_interval {
                    if backup_due(tick, interval) {
                        if let Some(q) = request(i, g, destination) {
                            out.push(q);
                        }
                    }
                }
            }
            i = i + 1;
        }
        out
    }
}

} // verus!
