//! The log, the snapshot, and what a crash or a failing disk leaves.

use std::collections::HashMap;

use kvstore::journal::{
    format_del, format_set, load_snapshot, parse_record, record_of, replay_aol, snapshot_bytes,
    InvalidUtf8, Record,
};
use kvstore::store::{
    Command, Op, Origin, Outcome, Pending, Reply, Step, Store, StoreConfig,
};
use kvstore::table::Table;

fn table(entries: &[(&str, &str)]) -> Table {
    let mut t = Table::new();
    for (k, v) in entries {
        t.insert(k.to_string(), v.to_string());
    }
    t
}

fn contents(t: &Table) -> Vec<(String, String)> {
    let mut all: Vec<(String, String)> = (0..t.len())
        .map(|i| {
            let (k, v) = t.entry(i);
            (k.clone(), v.clone())
        })
        .collect();
    all.sort();
    all
}

fn pairs(entries: &[(&str, &str)]) -> Vec<(String, String)> {
    entries.iter().map(|(k, v)| (k.to_string(), v.to_string())).collect()
}

/// Runs a command up to its first file operation.
fn start(store: &mut Store, line: &str) -> Step {
    store.execute(&Command::parse(line).unwrap())
}

fn io(step: Step) -> (Op, Pending) {
    match step {
        Step::Io { op, then } => (op, then),
        Step::Finished(reply) => panic!("finished with {:?}", reply),
    }
}

fn finished(step: Step) -> Reply {
    match step {
        Step::Finished(reply) => reply,
        Step::Io { op, .. } => panic!("asks for {:?}", op),
    }
}

/// Runs a command with every operation done, and collects the files.
fn run(store: &mut Store, files: &mut HashMap<String, Vec<u8>>, line: &str) -> Reply {
    let mut buffered: Vec<u8> = Vec::new();
    let mut step = start(store, line);
    loop {
        match step {
            Step::Finished(reply) => return reply,
            Step::Io { op, then } => {
                match op {
                    Op::WriteLog { bytes } => buffered.extend(bytes),
                    Op::FlushLog => {
                        let log = files.entry("d/appendonly.log".into()).or_default();
                        log.append(&mut buffered);
                    }
                    Op::WriteFile { path, bytes } => {
                        files.insert(path, bytes);
                    }
                    Op::Rename { from, to } => {
                        let bytes = files.remove(&from).unwrap();
                        files.insert(to, bytes);
                    }
                    Op::TruncateLog { path } => files.get_mut(&path).unwrap().clear(),
                }
                step = store.resume(then, Outcome::Done);
            }
        }
    }
}

fn opened(threshold: u64, files: &HashMap<String, Vec<u8>>) -> Store {
    let mut config = StoreConfig::new("d");
    config.snapshot_threshold = threshold;
    let snapshot = files.get("d/snapshot.kvs").map(|b| b.as_slice());
    let log = files.get("d/appendonly.log").map(|b| b.as_slice());
    Store::open(config, snapshot, log).unwrap().0
}

#[test]
fn table_operations() {
    let mut t = table(&[("a", "1"), ("b", "2"), ("c", "3"), ("a", "4")]);
    assert_eq!(t.len(), 3);
    assert_eq!(t.get("a").unwrap(), "4");
    assert!(t.get("x").is_none());
    assert!(t.contains_key("b"));
    assert!(t.remove("a"));
    assert!(!t.remove("a"));
    assert_eq!(contents(&t), pairs(&[("b", "2"), ("c", "3")]));
    assert_eq!(t.get("c").unwrap(), "3");
    t.clear();
    assert_eq!(t.len(), 0);
    assert!(!t.contains_key("b"));
}

#[test]
fn log_lines() {
    assert_eq!(format_set("k", "a b"), "SET k a b\n");
    assert_eq!(format_del("k"), "DEL k\n");
    assert!(matches!(parse_record("set k  a b "), Record::SetKey { key, value }
        if key == "k" && value == " a b"));
    assert!(matches!(parse_record("Del k x"), Record::Del { key } if key == "k"));
    assert!(matches!(parse_record(" flushdb now"), Record::Flush));
    assert!(matches!(parse_record(" \r"), Record::Blank));
    assert!(matches!(parse_record("SET k"), Record::Unknown));
    assert!(matches!(parse_record("DEL"), Record::Unknown));
    assert!(matches!(parse_record("DEL "), Record::Del { key } if key.is_empty()));
    assert!(matches!(parse_record("DEL  "), Record::Unknown));
    assert!(matches!(parse_record("SET "), Record::Unknown));
    assert!(matches!(parse_record("FLUSHDB "), Record::Flush));
    assert!(matches!(parse_record("GET k"), Record::Unknown));
}

#[test]
fn log_entries_from_a_verb_and_its_arguments() {
    let args = vec!["k".to_string(), "v w".to_string()];
    assert!(matches!(record_of("SET", &args), Record::SetKey { key, value }
        if key == "k" && value == "v w"));
    assert!(matches!(record_of("SET", &args[..1]), Record::Unknown));
    assert!(matches!(record_of("DEL", &args[..1]), Record::Del { key } if key == "k"));
    assert!(matches!(record_of("FLUSHDB", &[]), Record::Flush));
    assert!(matches!(record_of("set", &args), Record::Unknown));
    // A long s has S as its capital.
    assert!(matches!(parse_record("\u{17f}et k v"), Record::SetKey { key, value }
        if key == "k" && value == "v"));
}

#[test]
fn counting_stays_below_the_threshold() {
    let mut files = HashMap::new();
    let mut s = opened(3, &files);
    for i in 0..20 {
        run(&mut s, &mut files, &format!("SET k{} v", i));
        assert_eq!(s.aol_since_snapshot(), (i + 1) % 3);
        let lines = files["d/appendonly.log"].iter().filter(|&&b| b == b'\n').count();
        assert_eq!(lines as u64, s.aol_since_snapshot());
    }
}

#[test]
fn replay_hands_back_what_it_skipped() {
    let mut t = table(&[("old", "1"), ("gone", "2")]);
    let log = b"SET a 1\r\n\n  junk line \nDEL gone\nSET b\nb\xffd\nSET a 2 3\n";
    let skipped = replay_aol(log, &mut t);
    assert_eq!(skipped, vec!["junk line", "SET b", "b\u{fffd}d"]);
    assert_eq!(contents(&t), pairs(&[("a", "2 3"), ("old", "1")]));
}

#[test]
fn replay_twice_is_replay_once() {
    let log = b"SET a 1\nSET b 2\nDEL a\nFLUSHDB\nSET c 3\nSET c 4\n";
    let mut once = table(&[("z", "9")]);
    replay_aol(log, &mut once);
    let mut twice = table(&[("z", "9")]);
    replay_aol(log, &mut twice);
    replay_aol(log, &mut twice);
    assert_eq!(contents(&once), pairs(&[("c", "4")]));
    assert_eq!(contents(&twice), contents(&once));
}

#[test]
fn replay_in_parts() {
    let mut whole = Table::new();
    replay_aol(b"SET a 1\nSET b 2\nDEL a\n", &mut whole);
    let mut parts = Table::new();
    replay_aol(b"SET a 1\nSET b 2\n", &mut parts);
    replay_aol(b"DEL a\n", &mut parts);
    assert_eq!(contents(&parts), contents(&whole));
}

#[test]
fn a_last_line_needs_no_line_end() {
    let mut t = Table::new();
    assert_eq!(replay_aol(b"SET a 1", &mut t), Vec::<String>::new());
    assert_eq!(contents(&t), pairs(&[("a", "1")]));
    replay_aol(b"SET b 2\nDEL a", &mut t);
    assert_eq!(contents(&t), pairs(&[("b", "2")]));
    replay_aol(b"FLUSHDB", &mut t);
    assert_eq!(contents(&t), pairs(&[]));
}

#[test]
fn torn_last_line() {
    let set = "SET key v\u{e9}\u{20ac}\n";
    for n in 0..=set.len() {
        let mut log = b"SET other 1\nSET key old\n".to_vec();
        log.extend(&set.as_bytes()[..n]);
        let mut t = Table::new();
        replay_aol(&log, &mut t);
        assert_eq!(t.len(), 2);
        assert_eq!(t.get("other").unwrap(), "1");
        if n <= "SET key ".len() {
            assert_eq!(t.get("key").unwrap(), "old");
        }
    }
    let del = "DEL u10\n";
    for n in 0..=del.len() {
        let mut log = b"SET u1 a\nSET u10 b\nSET u100 c\nSET v d\n".to_vec();
        log.extend(&del.as_bytes()[..n]);
        let mut t = Table::new();
        replay_aol(&log, &mut t);
        assert!(t.contains_key("u100") && t.contains_key("v"));
        assert!(t.len() >= 3);
    }
    let flush = "FLUSHDB\n";
    for n in 0..=flush.len() {
        let mut t = table(&[("a", "1")]);
        replay_aol(&flush.as_bytes()[..n], &mut t);
        assert_eq!(t.len(), if n < 7 { 1 } else { 0 });
    }
    let mut t = Table::new();
    assert_eq!(replay_aol(b"SET a 1\nSET b", &mut t), vec!["SET b"]);
    assert_eq!(contents(&t), pairs(&[("a", "1")]));
}

#[test]
fn a_torn_log_goes_on_after_the_torn_line() {
    let mut files = HashMap::new();
    files.insert("d/appendonly.log".to_string(), b"SET a 1\nSET b".to_vec());
    let mut s = opened(1000, &files);
    assert_eq!(run(&mut s, &mut files, "SET c 3"), Reply::Okay);
    assert_eq!(files["d/appendonly.log"], b"SET a 1\nSET b\nSET c 3\n");
    assert_eq!(run(&mut s, &mut files, "SET d 4"), Reply::Okay);
    assert_eq!(files["d/appendonly.log"], b"SET a 1\nSET b\nSET c 3\nSET d 4\n");
    let mut again = opened(1000, &files);
    assert_eq!(again.len(), 3);
    assert_eq!(finished(start(&mut again, "GET a")), Reply::Value("1".into()));
    assert_eq!(finished(start(&mut again, "GET c")), Reply::Value("3".into()));
    assert_eq!(finished(start(&mut again, "GET d")), Reply::Value("4".into()));
}

#[test]
fn a_last_line_counts_the_same_at_the_next_start() {
    let mut files = HashMap::new();
    files.insert("d/appendonly.log".to_string(), b"SET a 1\nSET a 12".to_vec());
    let mut s = opened(1000, &files);
    assert_eq!(finished(start(&mut s, "GET a")), Reply::Value("12".into()));
    run(&mut s, &mut files, "SET c 3");
    let mut again = opened(1000, &files);
    assert_eq!(finished(start(&mut again, "GET a")), Reply::Value("12".into()));
    assert_eq!(finished(start(&mut again, "GET c")), Reply::Value("3".into()));
}

#[test]
fn a_snapshot_mends_a_torn_log() {
    let mut files = HashMap::new();
    files.insert("d/appendonly.log".to_string(), b"SET a 1\nSET b".to_vec());
    let mut s = opened(1000, &files);
    run(&mut s, &mut files, "SAVE");
    run(&mut s, &mut files, "SET c 3");
    assert_eq!(files["d/appendonly.log"], b"SET c 3\n");
    assert_eq!(files["d/snapshot.kvs"], b"a 1\n");
}

#[test]
fn a_crash_in_the_middle_of_an_append() {
    for old in ["SET a 1\n", "SET a 1\nSET z"] {
        for line in ["SET b 2", "DEL a", "FLUSHDB"] {
            let mut files = HashMap::new();
            files.insert("d/appendonly.log".to_string(), old.as_bytes().to_vec());
            let mut s = opened(1000, &files);
            let (op, _) = io(start(&mut s, line));
            let bytes = match op {
                Op::WriteLog { bytes } => bytes,
                op => panic!("{:?}", op),
            };
            for n in 0..=bytes.len() {
                let mut log = old.as_bytes().to_vec();
                log.extend(&bytes[..n]);
                let mut left = HashMap::new();
                left.insert("d/appendonly.log".to_string(), log);
                let mut again = opened(1000, &left);
                let done = n >= bytes.len() - 1;
                let a = match line {
                    "SET b 2" => Reply::Value("1".into()),
                    _ if done => Reply::Null,
                    _ => Reply::Value("1".into()),
                };
                assert_eq!(finished(start(&mut again, "GET a")), a);
                if line == "SET b 2" {
                    let b = if done { Reply::Value("2".into()) } else { Reply::Null };
                    assert_eq!(finished(start(&mut again, "GET b")), b);
                }
            }
        }
    }
}

#[test]
fn a_failed_write_costs_no_later_command() {
    let mut files = HashMap::new();
    let mut s = opened(1000, &files);
    run(&mut s, &mut files, "SET a 1");
    let (_, then) = io(start(&mut s, "SET b 2"));
    assert_eq!(finished(s.resume(then, Outcome::Failed("full".into()))), Reply::Okay);
    files.get_mut("d/appendonly.log").unwrap().extend(b"SET b");
    run(&mut s, &mut files, "SET c 3");
    let mut again = opened(1000, &files);
    assert_eq!(again.len(), 2);
    assert_eq!(finished(start(&mut again, "GET c")), Reply::Value("3".into()));
}

#[test]
fn snapshots_give_the_table_back() {
    let t = table(&[("a", "1"), ("key", "two words  here"), ("\u{fc}", "\u{20ac}")]);
    let bytes = snapshot_bytes(&t);
    let mut lines: Vec<&str> = std::str::from_utf8(&bytes).unwrap().lines().collect();
    lines.sort();
    assert_eq!(lines, vec!["a 1", "key two words  here", "\u{fc} \u{20ac}"]);
    let mut back = Table::new();
    assert_eq!(load_snapshot(&bytes, &mut back), Ok(()));
    assert_eq!(contents(&back), contents(&t));
    assert_eq!(snapshot_bytes(&Table::new()), b"");
}

#[test]
fn snapshot_lines_without_a_space_are_passed_over() {
    let mut t = table(&[("kept", "0")]);
    assert_eq!(load_snapshot(b"\ta 1\n\nlonely\n  \n\t b  2 \r\n c 3\n", &mut t), Ok(()));
    assert_eq!(contents(&t), pairs(&[("", "c 3"), ("a", "1"), ("b", " 2"), ("kept", "0")]));
}

#[test]
fn snapshot_that_is_not_utf8() {
    let mut t = Table::new();
    assert_eq!(load_snapshot(b"a 1\nb \xff\nc 3\n", &mut t), Err(InvalidUtf8));
    assert_eq!(contents(&t), pairs(&[("a", "1")]));
    let r = Store::open(StoreConfig::new("d"), Some(b"a \xff\n"), None);
    assert!(matches!(r, Err(InvalidUtf8)));
}

#[test]
fn opening_loads_the_snapshot_and_then_the_log() {
    let (mut s, skipped) = Store::open(
        StoreConfig::new("d"),
        Some(b"a 1\nb 2\n"),
        Some(b"DEL a\nSET b 3\n???\n"),
    )
    .unwrap();
    assert_eq!(skipped, vec!["???"]);
    assert_eq!(s.len(), 1);
    assert!(!s.is_empty());
    assert_eq!(finished(start(&mut s, "GET b")), Reply::Value("3".into()));
    assert_eq!(s.aol_since_snapshot(), 0);
}

#[test]
fn info_text() {
    let mut s = Store::in_memory();
    assert_eq!(finished(start(&mut s, "SET a 1")), Reply::Okay);
    assert_eq!(finished(start(&mut s, "SET a 2")), Reply::Okay);
    assert_eq!(
        finished(start(&mut s, "INFO")),
        Reply::Value("keys:1\naol_since_snapshot:2\nsnapshot_threshold:1000".into())
    );
}

#[test]
fn a_set_is_logged_then_flushed_then_counted() {
    let mut s = opened(1000, &HashMap::new());
    let (op, then) = io(start(&mut s, "SET k a b"));
    assert!(matches!(op, Op::WriteLog { bytes } if bytes == b"SET k a b\n"));
    assert!(matches!(&then, Pending::LogWrite(Reply::Okay)));
    assert_eq!(s.aol_since_snapshot(), 0);
    let (op, then) = io(s.resume(then, Outcome::Done));
    assert!(matches!(op, Op::FlushLog));
    assert_eq!(finished(s.resume(then, Outcome::Failed("full".into()))), Reply::Okay);
    assert_eq!(s.aol_since_snapshot(), 1);
}

#[test]
fn deletes_and_flushes_are_logged() {
    let mut s = opened(1000, &HashMap::new());
    assert_eq!(finished(start(&mut s, "DEL k")), Reply::Integer(0));
    run(&mut s, &mut HashMap::new(), "SET k v");
    let (op, _) = io(start(&mut s, "DEL k"));
    assert!(matches!(op, Op::WriteLog { bytes } if bytes == b"DEL k\n"));
    let (op, _) = io(start(&mut s, "FLUSHDB"));
    assert!(matches!(op, Op::WriteLog { bytes } if bytes == b"FLUSHDB\n"));
}

#[test]
fn a_log_line_that_could_not_be_written_is_not_counted() {
    let mut s = opened(1, &HashMap::new());
    let (_, then) = io(start(&mut s, "SET k v"));
    assert_eq!(finished(s.resume(then, Outcome::Failed("full".into()))), Reply::Okay);
    assert_eq!(s.aol_since_snapshot(), 0);
    assert_eq!(finished(start(&mut s, "GET k")), Reply::Value("v".into()));
}

#[test]
fn the_snapshot_is_the_safety_net() {
    let mut files = HashMap::new();
    let mut s = opened(1000, &files);
    run(&mut s, &mut files, "SET k first");
    let (_, then) = io(start(&mut s, "SET k second"));
    s.resume(then, Outcome::Failed("full".into()));
    assert_eq!(run(&mut s, &mut files, "SAVE"), Reply::Okay);
    assert_eq!(files["d/appendonly.log"], b"");
    assert_eq!(files["d/snapshot.kvs"], b"k second\n");
    assert!(!files.contains_key("d/snapshot.kvs.tmp"));
    assert_eq!(s.aol_since_snapshot(), 0);
    let mut s = opened(1000, &files);
    assert_eq!(finished(start(&mut s, "GET k")), Reply::Value("second".into()));
}

#[test]
fn a_snapshot_stops_at_the_first_failure() {
    for stage in 0..3 {
        let mut files = HashMap::new();
        let mut s = opened(1000, &files);
        run(&mut s, &mut files, "SET k v");
        let mut step = start(&mut s, "SAVE");
        for _ in 0..stage {
            let (_, then) = io(step);
            step = s.resume(then, Outcome::Done);
        }
        let (op, then) = io(step);
        match stage {
            0 => assert!(matches!(op, Op::WriteFile { path, bytes }
                if path == "d/snapshot.kvs.tmp" && bytes == b"k v\n")),
            1 => assert!(matches!(op, Op::Rename { from, to }
                if from == "d/snapshot.kvs.tmp" && to == "d/snapshot.kvs")),
            _ => assert!(matches!(op, Op::TruncateLog { path } if path == "d/appendonly.log")),
        }
        let reply = finished(s.resume(then, Outcome::Failed("disk full".into())));
        assert_eq!(reply, Reply::Error("snapshot failed: disk full".into()));
        assert_eq!(s.aol_since_snapshot(), 1);
    }
}

#[test]
fn an_automatic_snapshot_that_fails_is_not_the_clients_business() {
    let mut s = opened(1, &HashMap::new());
    let (_, then) = io(start(&mut s, "SET k v"));
    let (_, then) = io(s.resume(then, Outcome::Done));
    let (op, then) = io(s.resume(then, Outcome::Done));
    assert!(matches!(op, Op::WriteFile { .. }));
    assert!(matches!(&then, Pending::SnapshotWrite(Origin::Auto(Reply::Okay))));
    assert_eq!(finished(s.resume(then, Outcome::Failed("x".into()))), Reply::Okay);
    assert_eq!(s.aol_since_snapshot(), 1);
}

#[test]
fn without_a_log_file_counting_starts_anew_all_the_same() {
    let mut s = Store::in_memory();
    assert_eq!(finished(start(&mut s, "SET a 1")), Reply::Okay);
    let (_, then) = io(start(&mut s, "SAVE"));
    let (_, then) = io(s.resume(then, Outcome::Done));
    let (_, then) = io(s.resume(then, Outcome::Done));
    assert_eq!(finished(s.resume(then, Outcome::Absent)), Reply::Okay);
    assert_eq!(s.aol_since_snapshot(), 0);
    // There is still no log.
    assert_eq!(finished(start(&mut s, "SET b 2")), Reply::Okay);
}

#[test]
fn a_threshold_of_zero_snapshots_every_time() {
    let mut files = HashMap::new();
    let mut s = opened(0, &files);
    assert_eq!(run(&mut s, &mut files, "SET a 1"), Reply::Okay);
    assert_eq!(files["d/snapshot.kvs"], b"a 1\n");
    assert_eq!(s.aol_since_snapshot(), 0);
}

#[test]
fn a_crash_loses_at_most_one_command() {
    // The files after each operation of `SET b 2` with a snapshot, opened again.
    let mut files: HashMap<String, Vec<u8>> = HashMap::new();
    let mut s = opened(2, &files);
    run(&mut s, &mut files, "SET a 1");
    let mut buffered: Vec<u8> = Vec::new();
    let mut step = start(&mut s, "SET b 2");
    let mut flushed = false;
    loop {
        let mut again = opened(2, &files);
        assert_eq!(finished(start(&mut again, "GET a")), Reply::Value("1".into()));
        let b = if flushed { Reply::Value("2".into()) } else { Reply::Null };
        assert_eq!(finished(start(&mut again, "GET b")), b);
        match step {
            Step::Finished(reply) => {
                assert_eq!(reply, Reply::Okay);
                break;
            }
            Step::Io { op, then } => {
                match op {
                    Op::WriteLog { bytes } => buffered = bytes,
                    Op::FlushLog => {
                        files.get_mut("d/appendonly.log").unwrap().append(&mut buffered);
                        flushed = true;
                    }
                    Op::WriteFile { path, bytes } => {
                        files.insert(path, bytes);
                    }
                    Op::Rename { from, to } => {
                        let bytes = files.remove(&from).unwrap();
                        files.insert(to, bytes);
                    }
                    Op::TruncateLog { path } => files.get_mut(&path).unwrap().clear(),
                }
                step = s.resume(then, Outcome::Done);
            }
        }
    }
    assert!(flushed);
    assert_eq!(files["d/appendonly.log"], b"");
}

#[test]
fn a_restart_gives_the_table_back() {
    for threshold in [1, 2, 3, 100] {
        let mut files = HashMap::new();
        let mut s = opened(threshold, &files);
        for line in [
            "SET a 1", "SET b two  words", "DEL a", "FLUSHDB", "SET c 3", "SET d 4", "DEL c",
            "GET d",
        ] {
            run(&mut s, &mut files, line);
        }
        let mut s = opened(threshold, &files);
        assert_eq!(s.len(), 1);
        assert_eq!(finished(start(&mut s, "GET d")), Reply::Value("4".into()));
    }
}

#[test]
fn the_empty_key_survives() {
    for save in [false, true] {
        let mut files = HashMap::new();
        let mut s = opened(1000, &files);
        run(&mut s, &mut files, "SET  v w");
        if save {
            run(&mut s, &mut files, "SAVE");
            assert_eq!(files["d/snapshot.kvs"], b" v w\n");
        }
        let mut s = opened(1000, &files);
        assert_eq!(s.len(), 1);
        assert_eq!(finished(start(&mut s, "GET  x")), Reply::Value("v w".into()));
        assert_eq!(run(&mut s, &mut files, "DEL  x"), Reply::Integer(1));
        assert!(files["d/appendonly.log"].ends_with(b"DEL \n"));
        assert_eq!(opened(1000, &files).len(), 0);
    }
}

#[test]
fn a_key_that_begins_with_white_space_loses_it_in_a_snapshot() {
    let mut files = HashMap::new();
    files.insert("d/appendonly.log".to_string(), b"SET \tk v\n".to_vec());
    let mut s = opened(1000, &files);
    assert_eq!(finished(start(&mut s, "KEYS")), Reply::List(vec!["\tk".into()]));
    run(&mut s, &mut files, "SAVE");
    let mut s = opened(1000, &files);
    assert_eq!(finished(start(&mut s, "KEYS")), Reply::List(vec!["k".into()]));
}

#[test]
fn keys_match_each_key_once() {
    let mut s = Store::in_memory();
    for k in ["ab", "ac", "b", "a"] {
        start(&mut s, &format!("SET {} x", k));
    }
    let mut list = |pattern: &str| match finished(start(&mut s, &format!("KEYS {}", pattern))) {
        Reply::List(mut keys) => {
            keys.sort();
            keys
        }
        reply => panic!("{:?}", reply),
    };
    assert_eq!(list("a?"), vec!["ab", "ac"]);
    assert_eq!(list("a*"), vec!["a", "ab", "ac"]);
    assert_eq!(list("*"), vec!["a", "ab", "ac", "b"]);
    assert_eq!(list("z*"), Vec::<String>::new());
}

#[test]
fn commands_about_one_key_leave_the_others() {
    let mut s = Store::in_memory();
    for line in ["SET a 1", "SET b 2", "SET b 3", "DEL b"] {
        start(&mut s, line);
        assert_eq!(finished(start(&mut s, "GET a")), Reply::Value("1".into()));
        assert_eq!(finished(start(&mut s, "EXISTS a")), Reply::Integer(1));
    }
    assert_eq!(finished(start(&mut s, "GET b")), Reply::Null);
    assert_eq!(finished(start(&mut s, "EXISTS b")), Reply::Integer(0));
}
