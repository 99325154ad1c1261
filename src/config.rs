//! The data loaded once at startup: session definitions and global settings.
use vstd::prelude::*;
use crate::address::{digits_value, dot_fields, is_address, parse_address, unsigned_part};

verus! {

/// Game configuration of one supervised session.
pub struct GameConfig {
    /// World directory that backups copy.
    pub file_path: Option<String>,
    /// Ticks between backups; zero never triggers.
    pub backup_interval: Option<u64>,
    /// How many backups to retain; `None` keeps all of them.
    pub backup_keep: Option<u64>,
}

/// One supervised game server, identified by its unique name.
pub struct Session {
    pub name: String,
    pub game: Option<GameConfig>,
}

/// Global settings of the control plane.
pub struct Settings {
    pub ws_ip: [u8; 4],
    pub ws_port: u16,
    pub backup_location: String,
}

impl Settings {
    /// Builds the settings from their written form; `None` when the address
    /// is not a dotted quad, which is fatal at startup.
    pub fn new(ws_ip: &str, ws_port: u16, backup_location: String) -> (r: Option<Settings>)
        ensures
            r.is_some() <==> is_address(ws_ip@),
            r.is_some() ==> {
                let t = r.unwrap();
                &&& forall|k: int| 0 <= k < 4 ==> #[trigger] t.ws_ip@[k] as int == digits_value(unsigned_part(dot_fields(ws_ip@)[k]))
                &&& t.ws_port == ws_port
                &&& t.backup_location@ == backup_location@
            },
    {
        match parse_address(ws_ip) {
            Some(ip) => Some(Settings { ws_ip: ip, ws_port, backup_location }),
            None => None,
        }
    }
}

/// Whether the session takes part in scheduling at all.
pub open spec fn has_game(s: Session) -> bool {
    s.game.is_some()
}

/// No two sessions share a name.
pub open spec fn unique_names(sessions: Seq<Session>) -> bool {
    forall|i: int, j: int|
        0 <= i < sessions.len() && 0 <= j < sessions.len() && i != j
            ==> #[trigger] sessions[i].name@ != #[trigger] sessions[j].name@
}

/// Checks that session names are unique, as the rest of the core assumes.
pub fn has_unique_names(sessions: &Vec<Session>) -> (r: bool)
    ensures
        r == unique_names(sessions@),
{
    let n = sessions.len();
    let mut i: usize = 0;
    while i < n
        invariant
            n == sessions@.len(),
            i <= n,
            forall|a: int, b: int|
                0 <= a < i && 0 <= b < n && a != b
                    ==> #[trigger] sessions@[a].name@ != #[trigger] sessions@[b].name@,
        decreases n - i,
    {
        let mut j: usize = 0;
        while j < n
            invariant
                n == sessions@.len(),
                i < n,
                j <= n,
                forall|a: int, b: int|
                    0 <= a < i && 0 <= b < n && a != b
                        ==> #[trigger] sessions@[a].name@ != #[trigger] sessions@[b].name@,
                forall|b: int|
                    0 <= b < j && b != i ==> sessions@[i as int].name@ != #[trigger] sessions@[b].name@,
            decreases n - j,
        {
            if j != i && sessions[i].name == sessions[j].name {
                return false;
            }
            j = j + 1;
        }
        i = i + 1;
    }
    true
}

} // verus!
