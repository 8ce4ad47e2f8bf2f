//! Command parsing, store logic, and persistence.

use std::collections::HashMap;

use kvstore::store::{
    glob_match, Command, Op, Outcome, Reply, Step, Store, StoreConfig,
};

/// Files in memory, with the log buffered until it is flushed.
struct Disk {
    files: HashMap<String, Vec<u8>>,
    buffered: Vec<u8>,
    log: String,
}

impl Disk {
    fn new(dir: &str) -> Disk {
        Disk {
            files: HashMap::new(),
            buffered: Vec::new(),
            log: StoreConfig::new(dir).aol_path(),
        }
    }

    fn perform(&mut self, op: Op) -> Outcome {
        match op {
            Op::WriteLog { bytes } => self.buffered.extend(bytes),
            Op::FlushLog => {
                let bytes = std::mem::take(&mut self.buffered);
                self.files.entry(self.log.clone()).or_default().extend(bytes);
            }
            Op::WriteFile { path, bytes } => {
                self.files.insert(path, bytes);
            }
            Op::Rename { from, to } => match self.files.remove(&from) {
                Some(bytes) => {
                    self.files.insert(to, bytes);
                }
                None => return Outcome::Failed("no such file".to_string()),
            },
            Op::TruncateLog { path } => match self.files.get_mut(&path) {
                Some(bytes) => {
                    bytes.clear();
                    self.buffered.clear();
                }
                None => return Outcome::Absent,
            },
        }
        Outcome::Done
    }

    fn text(&self, path: &str) -> String {
        String::from_utf8(self.files[path].clone()).unwrap()
    }

    fn is_file(&self, path: &str) -> bool {
        self.files.contains_key(path)
    }
}

struct TestStore {
    store: Store,
    disk: Disk,
}

impl TestStore {
    fn execute(&mut self, cmd: &Command) -> Reply {
        let mut step = self.store.execute(cmd);
        loop {
            match step {
                Step::Finished(reply) => return reply,
                Step::Io { op, then } => {
                    let outcome = self.disk.perform(op);
                    step = self.store.resume(then, outcome);
                }
            }
        }
    }

    fn len(&self) -> usize {
        self.store.len()
    }

    fn is_empty(&self) -> bool {
        self.store.is_empty()
    }
}

fn mem() -> TestStore {
    TestStore { store: Store::in_memory(), disk: Disk::new("/dev/null") }
}

fn exec(store: &mut TestStore, line: &str) -> Reply {
    let cmd = Command::parse(line).unwrap();
    store.execute(&cmd)
}

// --------------------------------------------------------------- command parsing

#[test]
fn parse_set_preserves_spaces_in_value() {
    let cmd = Command::parse("SET greeting hello world").unwrap();
    assert_eq!(
        cmd,
        Command::SetKey {
            key: "greeting".into(),
            value: "hello world".into()
        }
    );
}

#[test]
fn parse_get() {
    let cmd = Command::parse("GET mykey").unwrap();
    assert_eq!(cmd, Command::Get { key: "mykey".into() });
}

#[test]
fn parse_is_case_insensitive() {
    assert!(Command::parse("set k v").is_ok());
    assert!(Command::parse("SeT k v").is_ok());
    assert!(Command::parse("GET k").is_ok());
    assert!(Command::parse("get k").is_ok());
}

#[test]
fn parse_missing_arguments() {
    assert!(Command::parse("GET").is_err());
    assert!(Command::parse("SET key").is_err());
    assert!(Command::parse("DEL").is_err());
}

#[test]
fn parse_unknown_command() {
    let err = Command::parse("FROBNICATE").unwrap_err();
    assert!(err.contains("unknown"), "got: {}", err);
}

#[test]
fn parse_empty_line() {
    assert!(Command::parse("").is_err());
    assert!(Command::parse("   ").is_err());
}

// --------------------------------------------------------------- CRUD

#[test]
fn get_missing_key_returns_null() {
    let mut s = mem();
    assert_eq!(exec(&mut s, "GET noexist"), Reply::Null);
}

#[test]
fn set_then_get() {
    let mut s = mem();
    assert_eq!(exec(&mut s, "SET color blue"), Reply::Okay);
    assert_eq!(exec(&mut s, "GET color"), Reply::Value("blue".into()));
}

#[test]
fn set_overwrites() {
    let mut s = mem();
    exec(&mut s, "SET k first");
    exec(&mut s, "SET k second");
    assert_eq!(exec(&mut s, "GET k"), Reply::Value("second".into()));
}

#[test]
fn del_returns_1_for_existing_0_for_missing() {
    let mut s = mem();
    exec(&mut s, "SET k v");
    assert_eq!(exec(&mut s, "DEL k"), Reply::Integer(1));
    assert_eq!(exec(&mut s, "DEL k"), Reply::Integer(0));
    assert_eq!(exec(&mut s, "GET k"), Reply::Null);
}

#[test]
fn exists_tells_whether_a_key_is_there() {
    let mut s = mem();
    assert_eq!(exec(&mut s, "EXISTS k"), Reply::Integer(0));
    exec(&mut s, "SET k v");
    assert_eq!(exec(&mut s, "EXISTS k"), Reply::Integer(1));
}

#[test]
fn dbsize() {
    let mut s = mem();
    assert_eq!(exec(&mut s, "DBSIZE"), Reply::Integer(0));
    exec(&mut s, "SET a 1");
    exec(&mut s, "SET b 2");
    assert_eq!(exec(&mut s, "DBSIZE"), Reply::Integer(2));
}

#[test]
fn flushdb_clears_everything() {
    let mut s = mem();
    exec(&mut s, "SET a 1");
    exec(&mut s, "SET b 2");
    assert_eq!(exec(&mut s, "FLUSHDB"), Reply::Okay);
    assert_eq!(exec(&mut s, "DBSIZE"), Reply::Integer(0));
}

#[test]
fn ping() {
    let mut s = mem();
    assert_eq!(exec(&mut s, "PING"), Reply::Value("PONG".into()));
    assert_eq!(
        exec(&mut s, "PING hello"),
        Reply::Value("hello".into())
    );
}

#[test]
fn info_contains_keys_count() {
    let mut s = mem();
    exec(&mut s, "SET a 1");
    if let Reply::Value(info) = exec(&mut s, "INFO") {
        assert!(info.contains("keys:1"), "got: {}", info);
    } else {
        panic!("INFO should return a Value");
    }
}

// --------------------------------------------------------------- KEYS and glob

#[test]
fn keys_star_returns_all() {
    let mut s = mem();
    exec(&mut s, "SET apple 1");
    exec(&mut s, "SET banana 2");
    if let Reply::List(mut keys) = exec(&mut s, "KEYS *") {
        keys.sort();
        assert_eq!(keys, vec!["apple", "banana"]);
    } else {
        panic!("KEYS should return a List");
    }
}

#[test]
fn keys_with_pattern() {
    let mut s = mem();
    exec(&mut s, "SET user:1 alice");
    exec(&mut s, "SET user:2 bob");
    exec(&mut s, "SET session:1 tok");
    if let Reply::List(keys) = exec(&mut s, "KEYS user:*") {
        assert_eq!(keys.len(), 2);
        assert!(keys.iter().all(|k| k.starts_with("user:")));
    } else {
        panic!("KEYS should return a List");
    }
}

#[test]
fn glob_question_mark() {
    assert!(glob_match("h?llo", "hello"));
    assert!(glob_match("h?llo", "hallo"));
    assert!(!glob_match("h?llo", "hllo"));
}

#[test]
fn glob_star() {
    assert!(glob_match("h*o", "hello"));
    assert!(glob_match("h*o", "ho"));
    assert!(glob_match("*", "anything"));
    assert!(glob_match("*", ""));
}

#[test]
fn glob_literal() {
    assert!(glob_match("exact", "exact"));
    assert!(!glob_match("exact", "nope"));
}

// --------------------------------------------------------------- reply encoding

#[test]
fn reply_encode_ok() {
    assert_eq!(Reply::Okay.encode(), "+OK\r\n");
}

#[test]
fn reply_encode_value() {
    assert_eq!(Reply::Value("hi".into()).encode(), "$hi\r\n");
}

#[test]
fn reply_encode_null() {
    assert_eq!(Reply::Null.encode(), "$-1\r\n");
}

#[test]
fn reply_encode_integer() {
    assert_eq!(Reply::Integer(42).encode(), ":42\r\n");
}

#[test]
fn reply_encode_error() {
    let encoded = Reply::Error("bad".into()).encode();
    assert!(encoded.starts_with("-ERR"));
    assert!(encoded.contains("bad"));
}

#[test]
fn reply_encode_list() {
    let r = Reply::List(vec!["a".into(), "b".into()]);
    let enc = r.encode();
    assert!(enc.starts_with("*2\r\n"));
    assert!(enc.contains("$a\r\n"));
}

// --------------------------------------------------------------- persistence

const DIR: &str = "kvstore-test";

fn open(mut disk: Disk, threshold: u64) -> TestStore {
    let mut config = StoreConfig::new(DIR);
    config.snapshot_threshold = threshold;
    let snapshot = disk.files.get(&config.snapshot_path()).cloned();
    let log = disk.files.get(&config.aol_path()).cloned();
    disk.files.entry(config.aol_path()).or_default();
    let (store, _) = Store::open(config, snapshot.as_deref(), log.as_deref()).unwrap();
    TestStore { store, disk }
}

fn temp_store(threshold: u64) -> TestStore {
    open(Disk::new(DIR), threshold)
}

fn reopen(s: TestStore) -> TestStore {
    let mut disk = s.disk;
    disk.buffered.clear();
    open(disk, 1000)
}

#[test]
fn data_survives_aol_replay() {
    let mut s = temp_store(999999);
    exec(&mut s, "SET name raqueeb");
    exec(&mut s, "SET city hyderabad");
    exec(&mut s, "DEL city");

    let mut s2 = reopen(s);
    assert_eq!(exec(&mut s2, "GET name"), Reply::Value("raqueeb".into()));
    assert_eq!(exec(&mut s2, "GET city"), Reply::Null);
}

#[test]
fn snapshot_is_written_and_aol_is_truncated() {
    let mut s = temp_store(3); // snapshot after 3 mutations
    exec(&mut s, "SET a 1");
    exec(&mut s, "SET b 2");
    exec(&mut s, "SET c 3"); // triggers snapshot

    let aol = s.disk.text("kvstore-test/appendonly.log");
    assert!(
        aol.trim().is_empty(),
        "AOL should be empty after snapshot, got: {:?}",
        aol
    );
    assert!(s.disk.is_file("kvstore-test/snapshot.kvs"));

    let mut s2 = reopen(s);
    assert_eq!(exec(&mut s2, "GET a"), Reply::Value("1".into()));
    assert_eq!(exec(&mut s2, "GET b"), Reply::Value("2".into()));
    assert_eq!(exec(&mut s2, "GET c"), Reply::Value("3".into()));
}

#[test]
fn snapshot_plus_aol_rebuild() {
    let mut s = temp_store(3);
    // 3 SETs trigger a snapshot.
    exec(&mut s, "SET a 1");
    exec(&mut s, "SET b 2");
    exec(&mut s, "SET c 3");
    // Then two more go into the new AOL.
    exec(&mut s, "SET d 4");
    exec(&mut s, "DEL b");

    let mut s2 = reopen(s);
    assert_eq!(exec(&mut s2, "GET a"), Reply::Value("1".into()));
    assert_eq!(exec(&mut s2, "GET b"), Reply::Null);
    assert_eq!(exec(&mut s2, "GET c"), Reply::Value("3".into()));
    assert_eq!(exec(&mut s2, "GET d"), Reply::Value("4".into()));
}

#[test]
fn empty_store_opens_without_error() {
    let s = temp_store(1000);
    assert!(s.is_empty());
}

#[test]
fn flushdb_is_replayed() {
    let mut s = temp_store(999999);
    exec(&mut s, "SET a 1");
    exec(&mut s, "SET b 2");
    exec(&mut s, "FLUSHDB");
    exec(&mut s, "SET c 3");

    let mut s2 = reopen(s);
    assert_eq!(exec(&mut s2, "GET a"), Reply::Null);
    assert_eq!(exec(&mut s2, "GET c"), Reply::Value("3".into()));
    assert_eq!(s2.len(), 1);
}

#[test]
fn manual_save_command() {
    let mut s = temp_store(999999);
    exec(&mut s, "SET x 42");
    assert_eq!(exec(&mut s, "SAVE"), Reply::Okay);
    assert!(s.disk.is_file("kvstore-test/snapshot.kvs"));

    let mut s2 = reopen(s);
    assert_eq!(exec(&mut s2, "GET x"), Reply::Value("42".into()));
}

#[test]
fn corrupt_aol_line_is_skipped_not_fatal() {
    let mut s = temp_store(999999);
    // Write a valid line, then garbage, then another valid line.
    s.disk.files.insert(
        "kvstore-test/appendonly.log".to_string(),
        b"SET good value\nGARBAGE LINE\nSET also_good ok\n".to_vec(),
    );

    let mut s = reopen(s);
    assert_eq!(exec(&mut s, "GET good"), Reply::Value("value".into()));
    assert_eq!(exec(&mut s, "GET also_good"), Reply::Value("ok".into()));
}

#[test]
fn snapshot_is_atomic_no_tmp_left() {
    let mut s = temp_store(2);
    exec(&mut s, "SET a 1");
    exec(&mut s, "SET b 2"); // triggers snapshot
    assert!(!s.disk.is_file("kvstore-test/snapshot.kvs.tmp"));
    assert!(s.disk.is_file("kvstore-test/snapshot.kvs"));
}
