//! Text, patterns, replies, commands and paths.

use std::path::Path;

use kvstore::command::Command;
use kvstore::config::{join, StoreConfig};
use kvstore::glob::{glob_match, glob_match_inner};
use kvstore::lines::{lossy_text, newline_from, split_lines, utf8_text};
use kvstore::reply::Reply;
use kvstore::text::{
    chars_of, decimal_of, is_whitespace, signed_decimal_of, splitn, starts_with_space, to_uppercase,
    trim, trim_end, Separator,
};

#[test]
fn white_space_is_that_of_unicode() {
    for c in '\0'..=char::MAX {
        assert_eq!(is_whitespace(c), c.is_whitespace(), "{:?}", c);
    }
}

#[test]
fn trimming_takes_white_space_from_both_ends() {
    for s in [
        "", " ", "a", " a", "a ", "\t a b \r\n", "\u{3000}x\u{2003}", "\u{200b}x",
        " \u{85}é\u{a0}",
    ] {
        assert_eq!(trim(s), s.trim(), "{:?}", s);
        assert_eq!(trim_end(s), s.trim_end(), "{:?}", s);
        assert_eq!(starts_with_space(s), s.starts_with(' '), "{:?}", s);
    }
}

#[test]
fn splitting_keeps_the_rest_in_the_last_piece() {
    for s in ["", "a", "a b", "a b c d", " a", "a  b", "a\tb c\u{2003}d ", "é ü  "] {
        for n in 1..5 {
            let spaces: Vec<String> = s.splitn(n, ' ').map(String::from).collect();
            assert_eq!(splitn(s, n, Separator::Space), spaces, "{:?}", s);
            let white: Vec<String> = s.splitn(n, char::is_whitespace).map(String::from).collect();
            assert_eq!(splitn(s, n, Separator::WhiteSpace), white, "{:?}", s);
        }
    }
}

#[test]
fn upper_case_of_ascii_and_beyond() {
    assert_eq!(to_uppercase("set"), "SET");
    assert_eq!(to_uppercase("mIx3d-[`{"), "MIX3D-[`{");
    assert_eq!(to_uppercase("\u{17f}et"), "SET");
    assert_eq!(to_uppercase("straße"), "STRASSE");
}

#[test]
fn upper_case_is_that_of_std() {
    let mut all = String::new();
    for c in '\0'..=char::MAX {
        let s = c.to_string();
        assert_eq!(to_uppercase(&s), s.to_uppercase(), "{:?}", c);
        if c.is_lowercase() {
            all.push(c);
        }
    }
    assert_eq!(to_uppercase(&all), all.to_uppercase());
    assert_eq!(to_uppercase("\u{3b1}\u{3c3}\u{3c2} i\u{307} \u{1f80}"),
        "\u{3b1}\u{3c3}\u{3c2} i\u{307} \u{1f80}".to_uppercase());
}

#[test]
fn the_case_of_a_verb_does_not_matter() {
    for (a, b) in [
        ("get k", "GeT k"),
        ("  \u{17f}eT k V", "  \u{17f}ET k V"),
        ("stra\u{df}e x", "STRA\u{df}E x"),
        ("g\u{e9}t", "G\u{e9}T"),
    ] {
        assert_eq!(Command::parse(a), Command::parse(b));
    }
}

#[test]
fn characters_of_a_text() {
    assert_eq!(chars_of("aé€"), vec!['a', 'é', '€']);
    assert_eq!(chars_of(""), Vec::<char>::new());
}

#[test]
fn decimals() {
    for n in [0, 1, 9, 10, 99, 100, 65536, u64::MAX - 1, u64::MAX] {
        assert_eq!(decimal_of(n), n.to_string());
    }
    for n in [0, 7, -1, -10, 42, i64::MAX, i64::MIN, i64::MIN + 1] {
        assert_eq!(signed_decimal_of(n), n.to_string());
    }
}

#[test]
fn glob_star_matches_any_run() {
    assert!(glob_match("a*b*c", "abc"));
    assert!(glob_match("a*b*c", "aXXbYYc"));
    assert!(glob_match("**", "x"));
    assert!(glob_match("user:*", "user:"));
    assert!(!glob_match("user:*", "users:1"));
    assert!(!glob_match("a*b", "abc"));
}

#[test]
fn glob_patterns_in_a_row() {
    assert!(glob_match("a?", "ax") && glob_match("*c", "bbc") && glob_match("a?*c", "axbbc"));
    assert!(!glob_match("a?*c", "ac"));
}

#[test]
fn glob_with_many_stars_is_quick() {
    let text = "a".repeat(300);
    assert!(!glob_match(&format!("{}b", "*a".repeat(100)), &text));
    assert!(glob_match(&format!("{}*", "*a".repeat(100)), &text));
    assert!(glob_match(&"*".repeat(5000), &text));
}

#[test]
fn glob_counts_characters_not_bytes() {
    assert!(glob_match("?", "é"));
    assert!(!glob_match("??", "é"));
    assert!(!glob_match("?", ""));
    assert!(glob_match("", ""));
    assert!(!glob_match("", "x"));
}

#[test]
fn glob_on_characters() {
    assert!(glob_match_inner(&['*', 'x'], &['a', 'x']));
    assert!(!glob_match_inner(&['*', 'x'], &['a', 'y']));
}

#[test]
fn replies_on_the_wire() {
    assert_eq!(Reply::Okay.encode(), "+OK\r\n");
    assert_eq!(Reply::Value(String::new()).encode(), "$\r\n");
    assert_eq!(Reply::Null.encode(), "$-1\r\n");
    assert_eq!(Reply::Integer(0).encode(), ":0\r\n");
    assert_eq!(Reply::Integer(i64::MIN).encode(), ":-9223372036854775808\r\n");
    assert_eq!(Reply::Error("empty command".into()).encode(), "-ERR empty command\r\n");
    assert_eq!(Reply::List(vec![]).encode(), "*0\r\n");
    assert_eq!(
        Reply::List(vec!["a".into(), "b".into(), "c".into()]).encode(),
        "*3\r\n$a\r\n$b\r\n$c\r\n"
    );
}

#[test]
fn replies_are_told_apart() {
    assert_eq!(Reply::Null.encode(), Reply::Value("-1".into()).encode());
    assert_ne!(Reply::Integer(-1).encode(), Reply::Integer(1).encode());
    assert_ne!(Reply::Integer(10).encode(), Reply::Integer(1).encode());
    assert_ne!(Reply::Error("-1".into()).encode(), Reply::Value("-1".into()).encode());
}

#[test]
fn commands_and_their_errors() {
    let error = |line: &str| Command::parse(line).unwrap_err();
    assert_eq!(error(" \t "), "empty command");
    assert_eq!(error("get"), "usage: GET <key>");
    assert_eq!(error("SET"), "usage: SET <key> <value>");
    assert_eq!(error("SET k "), "usage: SET <key> <value>");
    assert_eq!(error("DEL "), "usage: DEL <key>");
    assert_eq!(error("exists"), "usage: EXISTS <key>");
    assert_eq!(error("frob x"), "unknown command 'FROB'");
    assert_eq!(error("straße"), "unknown command 'STRASSE'");
}

#[test]
fn commands_with_their_arguments() {
    let parse = |line: &str| Command::parse(line).unwrap();
    let set = |key: &str, value: &str| Command::SetKey { key: key.into(), value: value.into() };
    assert_eq!(parse("  set k\ta  b \r\n"), set("k", "a  b"));
    assert_eq!(parse("SET  v"), set("", "v"));
    assert_eq!(parse("\u{17f}et k v"), set("k", "v"));
    assert_eq!(parse("del k rest"), Command::Del { key: "k".into() });
    assert_eq!(parse("Exists k"), Command::Exists { key: "k".into() });
    assert_eq!(parse("keys"), Command::Keys { pattern: "*".into() });
    assert_eq!(parse("keys a?"), Command::Keys { pattern: "a?".into() });
    assert_eq!(parse("ping"), Command::Ping { msg: None });
    assert_eq!(parse("ping a\tb  c"), Command::Ping { msg: Some("a b  c".into()) });
    assert_eq!(parse("dbsize now"), Command::Dbsize);
    assert_eq!(parse("flushdb"), Command::Flushdb);
    assert_eq!(parse("save"), Command::Save);
    assert_eq!(parse("info"), Command::Info);
}

#[test]
fn commands_from_a_verb_and_its_arguments() {
    let from = |verb: &str, args: &[&str]| {
        let args: Vec<String> = args.iter().map(|a| a.to_string()).collect();
        Command::from_parts(verb, &args)
    };
    assert_eq!(from("GET", &["k"]), Ok(Command::Get { key: "k".into() }));
    assert_eq!(from("GET", &[]), Err("usage: GET <key>".into()));
    assert_eq!(from("PING", &["a", "b"]), Ok(Command::Ping { msg: Some("a b".into()) }));
    assert_eq!(from("get", &["k"]), Err("unknown command 'get'".into()));
    assert_eq!(from("\u{c4}", &[]), Err("unknown command '\u{c4}'".into()));
}

#[test]
fn paths_are_joined_as_std_joins_them() {
    for dir in ["", "data", "/tmp/x", "/tmp/x/", "/", "a b", "é"] {
        let expected = Path::new(dir).join("snapshot.kvs");
        assert_eq!(join(dir, "snapshot.kvs"), expected.to_str().unwrap());
    }
}

#[test]
fn files_of_a_data_directory() {
    let config = StoreConfig::new("data");
    assert_eq!(config.data_dir, "data");
    assert_eq!(config.snapshot_threshold, 1000);
    assert_eq!(config.aol_path(), "data/appendonly.log");
    assert_eq!(config.snapshot_path(), "data/snapshot.kvs");
    assert_eq!(config.snapshot_tmp_path(), "data/snapshot.kvs.tmp");
}

#[test]
fn lines_of_bytes() {
    assert_eq!(split_lines(b""), vec![b"".to_vec()]);
    assert_eq!(split_lines(b"a\n\nb"), vec![b"a".to_vec(), b"".to_vec(), b"b".to_vec()]);
    assert_eq!(split_lines(b"a\n"), vec![b"a".to_vec(), b"".to_vec()]);
    assert_eq!(newline_from(b"ab\ncd\n", 0), 2);
    assert_eq!(newline_from(b"ab\ncd\n", 3), 5);
    assert_eq!(newline_from(b"ab\ncd", 3), 5);
}

#[test]
fn text_of_bytes() {
    assert_eq!(utf8_text("é€".as_bytes()), Some("é€"));
    assert_eq!(utf8_text(b"a\xff"), None);
    assert_eq!(lossy_text("é€".as_bytes()), "é€");
    assert_eq!(lossy_text(b"a\xffb\n"), "a\u{fffd}b\n");
    assert_eq!(lossy_text(b"\xe2\x82\n"), "\u{fffd}\n");
}
