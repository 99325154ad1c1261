use lupus::address::{parse_address, parse_octet};
use lupus::backup::{backup_due, retention, BackupScheduler, Retention};
use lupus::broadcast::{collect_cycle, compose_frame, Fetched};
use lupus::config::{has_unique_names, GameConfig, Session, Settings};
use lupus::cursor::CursorTable;
use lupus::registry::ClientRegistry;
use lupus::startup::{baseline_table, startup_plan, StartupStep, SETTLE_DELAY_MS};

fn game(path: Option<&str>, interval: Option<u64>, keep: Option<u64>) -> GameConfig {
    GameConfig {
        file_path: path.map(|p| p.to_string()),
        backup_interval: interval,
        backup_keep: keep,
    }
}

fn session(name: &str, g: Option<GameConfig>) -> Session {
    Session { name: name.to_string(), game: g }
}

fn end_to_end_sessions() -> Vec<Session> {
    vec![
        session("alpha", Some(game(Some("/srv/alpha/world"), Some(10), Some(2)))),
        session("beta", None),
    ]
}

fn table_of(entries: &[(&str, u64)]) -> CursorTable {
    let mut t = CursorTable::new();
    for (name, count) in entries {
        t.push(name.to_string(), *count);
    }
    t
}

fn report(message: Option<&str>, line_count: u64) -> Fetched {
    Fetched { message: message.map(|m| m.to_string()), line_count }
}

#[test]
fn trigger_skips_first_boundary() {
    assert!(!backup_due(5, 5));
    assert!(backup_due(10, 5));
    assert!(backup_due(15, 5));
    assert!(backup_due(20, 5));
    assert!(!backup_due(11, 5));
    assert!(!backup_due(0, 5));
    assert!(!backup_due(10, 0));
}

#[test]
fn interval_five_keep_three_triggers() {
    let sessions = vec![session("s", Some(game(Some("/w"), Some(5), Some(3))))];
    let dest = "/backups".to_string();
    let mut sched = BackupScheduler::new();
    let mut fired = Vec::new();
    for _ in 0..20 {
        let reqs = sched.cycle(&sessions, &dest);
        assert!(reqs.len() <= 1);
        for r in reqs {
            assert_eq!(r.keep, Retention::Keep(3));
            assert_eq!(r.interval, 5);
            assert_eq!(r.file_path, "/w");
            assert_eq!(r.destination, "/backups");
            fired.push(sched.tick);
        }
    }
    assert_eq!(fired, vec![10, 15, 20]);
}

#[test]
fn absent_keep_is_unbounded() {
    assert_eq!(retention(None), Retention::Unbounded);
    assert_eq!(retention(Some(4)), Retention::Keep(4));
    let sessions = vec![session("s", Some(game(Some("/w"), Some(1), None)))];
    let mut sched = BackupScheduler::new();
    sched.cycle(&sessions, &"/b".to_string());
    let reqs = sched.cycle(&sessions, &"/b".to_string());
    assert_eq!(reqs.len(), 1);
    assert_eq!(reqs[0].keep, Retention::Unbounded);
}

#[test]
fn sessions_without_path_or_interval_never_back_up() {
    let sessions = vec![
        session("a", Some(game(None, Some(2), None))),
        session("b", Some(game(Some("/b"), None, None))),
        session("c", Some(game(Some("/c"), Some(2), None))),
    ];
    let mut sched = BackupScheduler::new();
    sched.cycle(&sessions, &"/d".to_string());
    sched.cycle(&sessions, &"/d".to_string());
    sched.cycle(&sessions, &"/d".to_string());
    let reqs = sched.cycle(&sessions, &"/d".to_string());
    assert_eq!(sched.tick, 4);
    assert_eq!(reqs.len(), 1);
    assert_eq!(reqs[0].session, 2);
}

#[test]
fn startup_plan_follows_list_order() {
    let sessions = vec![
        session("one", Some(game(None, None, None))),
        session("two", None),
        session("three", Some(game(None, None, None))),
    ];
    let plan = startup_plan(&sessions);
    assert_eq!(
        plan,
        vec![
            StartupStep::Open { session: 0, settle_ms: SETTLE_DELAY_MS },
            StartupStep::Skip(1),
            StartupStep::Open { session: 2, settle_ms: SETTLE_DELAY_MS },
        ]
    );
    assert_eq!(SETTLE_DELAY_MS, 20);
}

#[test]
fn failed_pipe_gets_no_cursor() {
    let sessions = vec![
        session("one", Some(game(None, None, None))),
        session("two", Some(game(None, None, None))),
    ];
    let table = baseline_table(&sessions, &vec![None, Some(7)]);
    assert_eq!(table.len(), 1);
    assert_eq!(table.name(0), "two");
    assert_eq!(table.count(0), 7);
    assert_eq!(table.get(&"one".to_string()), None);
}

#[test]
fn end_to_end_alpha_and_beta() {
    let sessions = end_to_end_sessions();
    assert!(has_unique_names(&sessions));
    let plan = startup_plan(&sessions);
    assert_eq!(
        plan,
        vec![StartupStep::Open { session: 0, settle_ms: SETTLE_DELAY_MS }, StartupStep::Skip(1)]
    );
    let table = baseline_table(&sessions, &vec![Some(42), None]);
    assert_eq!(table.len(), 1);
    assert_eq!(table.get(&"alpha".to_string()), Some(42));
    assert_eq!(table.get(&"beta".to_string()), None);
    let dest = "/backups".to_string();
    let mut sched = BackupScheduler::new();
    let mut calls = Vec::new();
    for _ in 0..25 {
        for r in sched.cycle(&sessions, &dest) {
            calls.push((sched.tick, r.session, r.keep, r.file_path));
        }
    }
    assert_eq!(calls, vec![(20, 0, Retention::Keep(2), "/srv/alpha/world".to_string())]);
}

#[test]
fn quiet_cycle_sends_no_frame() {
    let mut table = table_of(&[("a", 3), ("b", 9)]);
    let out = collect_cycle(&mut table, &vec![report(None, 3), report(None, 9)]);
    assert_eq!(out, None);
    assert_eq!(table.count(0), 3);
    assert_eq!(table.count(1), 9);
}

#[test]
fn two_reports_share_one_frame() {
    let mut table = table_of(&[("a", 3), ("b", 9)]);
    let out = collect_cycle(&mut table, &vec![report(Some("a says hi"), 5), report(Some("b says hi"), 10)]);
    assert_eq!(out, Some("a says hi\nb says hi".to_string()));
    assert_eq!(compose_frame(out.as_deref().unwrap()), "MSG a says hi\nb says hi");
    assert_eq!(table.count(0), 5);
    assert_eq!(table.count(1), 10);
}

#[test]
fn one_report_among_quiet_sessions() {
    let mut table = table_of(&[("a", 1), ("b", 2), ("c", 3)]);
    let out = collect_cycle(&mut table, &vec![report(None, 1), report(Some("x"), 4), report(None, 3)]);
    assert_eq!(out, Some("x".to_string()));
    assert_eq!(table.count(1), 4);
    let again = collect_cycle(&mut table, &vec![report(None, 1), report(None, 4), report(None, 3)]);
    assert_eq!(again, None);
}

#[test]
fn cursor_never_moves_back() {
    let mut table = table_of(&[("a", 10)]);
    let out = collect_cycle(&mut table, &vec![report(Some("late"), 4)]);
    assert_eq!(out, Some("late".to_string()));
    assert_eq!(table.count(0), 10);
    table.advance(0, 12);
    assert_eq!(table.count(0), 12);
    table.advance(0, 11);
    assert_eq!(table.count(0), 12);
}

#[test]
fn frame_tag_on_empty_body() {
    assert_eq!(compose_frame(""), "MSG ");
}

#[test]
fn registry_lists_every_client() {
    let mut reg: ClientRegistry<String> = ClientRegistry::new();
    reg.register(1, "one".to_string());
    reg.register(2, "two".to_string());
    reg.register(3, "three".to_string());
    let mut ids = reg.recipients();
    ids.sort();
    assert_eq!(ids, vec![1, 2, 3]);
    assert_eq!(reg.channel(2), Some(&"two".to_string()));
    assert_eq!(reg.unregister(2), Some("two".to_string()));
    assert_eq!(reg.unregister(2), None);
    assert!(!reg.contains(2));
    let mut ids = reg.recipients();
    ids.sort();
    assert_eq!(ids, vec![1, 3]);
}

#[test]
fn registry_replaces_channel_of_same_id() {
    let mut reg: ClientRegistry<u32> = ClientRegistry::new();
    reg.register(7, 1);
    reg.register(7, 2);
    assert_eq!(reg.recipients(), vec![7]);
    assert_eq!(reg.channel(7), Some(&2));
    assert_eq!(reg.channel(8), None);
}

#[test]
fn duplicate_names_detected() {
    let sessions = vec![session("a", None), session("b", None), session("a", None)];
    assert!(!has_unique_names(&sessions));
    assert!(has_unique_names(&vec![]));
}

#[test]
fn address_parses() {
    assert_eq!(parse_address("127.0.0.1"), Some([127, 0, 0, 1]));
    assert_eq!(parse_address("255.255.255.255"), Some([255, 255, 255, 255]));
    assert_eq!(parse_address("+1.02.3.4"), Some([1, 2, 3, 4]));
}

#[test]
fn malformed_addresses_rejected() {
    assert_eq!(parse_address("256.0.0.1"), None);
    assert_eq!(parse_address("1.2.3"), None);
    assert_eq!(parse_address("1.2.3.4.5"), None);
    assert_eq!(parse_address("1..2.3"), None);
    assert_eq!(parse_address("a.b.c.d"), None);
    assert_eq!(parse_address(""), None);
    assert_eq!(parse_address("1.2.3.+"), None);
}

#[test]
fn octet_fields() {
    assert_eq!(parse_octet(&vec!['2', '5', '5']), Some(255));
    assert_eq!(parse_octet(&vec!['2', '5', '6']), None);
    assert_eq!(parse_octet(&vec!['0', '0', '0', '9']), Some(9));
    assert_eq!(parse_octet(&vec!['-', '1']), None);
    assert_eq!(parse_octet(&vec![]), None);
}

#[test]
fn settings_from_written_form() {
    let s = Settings::new("10.0.0.2", 8080, "/backups".to_string()).unwrap();
    assert_eq!(s.ws_ip, [10, 0, 0, 2]);
    assert_eq!(s.ws_port, 8080);
    assert_eq!(s.backup_location, "/backups");
    assert!(Settings::new("10.0.0", 8080, "/backups".to_string()).is_none());
    assert!(Settings::new("localhost", 8080, "/backups".to_string()).is_none());
}
