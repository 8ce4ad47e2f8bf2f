//! Clients, their input, and how requests are answered.

use kvstore::server::{
    classify, has_pending_client, request_of, Admission, ReadEvent, ReadStep, Readiness, Server,
    Service, MAX_CLIENTS, MAX_LINE, POLLERR, POLLHUP, POLLIN, POLLNVAL,
};
use kvstore::store::{Op, Outcome, Store, StoreConfig};

fn server() -> Server {
    Server::new(Store::in_memory())
}

fn connect(s: &mut Server, fd: i32) {
    assert!(matches!(s.accept(fd), Admission::Admitted));
}

fn feed(s: &mut Server, fd: i32, bytes: &[u8]) {
    assert!(matches!(s.receive(fd, ReadEvent::Data(bytes.to_vec())), ReadStep::ReadMore));
}

/// What the client is sent until nothing is left to serve.
fn answers(s: &mut Server, fd: i32) -> String {
    let mut out = String::new();
    loop {
        match s.serve(fd) {
            Service::Idle => return out,
            Service::Send { text } => out.push_str(&text),
            Service::Io { op, .. } => panic!("asks for {:?}", op),
        }
    }
}

fn ask(s: &mut Server, fd: i32, bytes: &[u8]) -> String {
    feed(s, fd, bytes);
    assert!(matches!(s.receive(fd, ReadEvent::WouldBlock), ReadStep::Serve));
    answers(s, fd)
}

#[test]
fn a_conversation() {
    let mut s = server();
    connect(&mut s, 5);
    assert_eq!(ask(&mut s, 5, b"SET name raqueeb\n"), "+OK\r\n");
    assert_eq!(ask(&mut s, 5, b"GET name\n"), "$raqueeb\r\n");
    assert_eq!(ask(&mut s, 5, b"DEL name\r\n"), ":1\r\n");
    assert_eq!(ask(&mut s, 5, b"GET name\n"), "$-1\r\n");
    assert_eq!(ask(&mut s, 5, b"NOPE\n"), "-ERR unknown command 'NOPE'\r\n");
    assert_eq!(ask(&mut s, 5, b"GET\n"), "-ERR usage: GET <key>\r\n");
}

#[test]
fn one_request() {
    assert_eq!(request_of(" GET k\r\n"), Some("GET k".to_string()));
    assert_eq!(request_of(" \r\n"), None);
    let mut s = server();
    assert!(matches!(s.handle("SET k v"), Service::Send { text } if text == "+OK\r\n"));
    assert!(matches!(s.handle("get k"), Service::Send { text } if text == "$v\r\n"));
    assert!(matches!(s.handle(""), Service::Send { text } if text == "-ERR empty command\r\n"));
}

#[test]
fn several_requests_in_one_read() {
    let mut s = server();
    connect(&mut s, 5);
    assert_eq!(
        ask(&mut s, 5, b"\n  \r\nSET a 1\n\nSET b 2\nDBSIZE\nPI"),
        "+OK\r\n+OK\r\n:2\r\n"
    );
    assert_eq!(ask(&mut s, 5, b"NG\n"), "$PONG\r\n");
}

#[test]
fn input_can_be_cut_anywhere() {
    let input = "SET k caf\u{e9}\nGET k\n\nEXISTS k\n".as_bytes();
    for cut in 0..=input.len() {
        let mut s = server();
        connect(&mut s, 5);
        let mut out = ask(&mut s, 5, &input[..cut]);
        out.push_str(&ask(&mut s, 5, &input[cut..]));
        assert_eq!(out, "+OK\r\n$caf\u{e9}\r\n:1\r\n");
    }
}

#[test]
fn input_that_is_not_utf8() {
    let mut s = server();
    connect(&mut s, 5);
    assert_eq!(ask(&mut s, 5, b"SET k a\xffb\nGET k\n"), "+OK\r\n$a\u{fffd}b\r\n");
}

#[test]
fn clients_share_one_store_and_nothing_else() {
    let mut s = server();
    connect(&mut s, 5);
    connect(&mut s, 6);
    feed(&mut s, 6, b"GET ");
    assert_eq!(ask(&mut s, 5, b"SET k v\n"), "+OK\r\n");
    assert_eq!(ask(&mut s, 6, b"k\n"), "$v\r\n");
    feed(&mut s, 6, b"GET ");
    assert!(s.disconnect(5));
    assert!(!s.disconnect(5));
    assert_eq!(s.client_count(), 1);
    assert_eq!(s.key_count(), 1);
    assert_eq!(ask(&mut s, 6, b"k\n"), "$v\r\n");
}

#[test]
fn a_descriptor_that_is_used_again_starts_empty() {
    let mut s = server();
    connect(&mut s, 5);
    feed(&mut s, 5, b"half a li");
    s.disconnect(5);
    connect(&mut s, 5);
    assert_eq!(ask(&mut s, 5, b"PING\n"), "$PONG\r\n");
}

#[test]
fn a_full_server_refuses() {
    let mut s = server();
    for fd in 0..MAX_CLIENTS as i32 {
        connect(&mut s, fd);
    }
    assert_eq!(s.client_count(), 512);
    match s.accept(9999) {
        Admission::Refused { parting } => assert_eq!(parting, "-ERR server full\r\n"),
        Admission::Admitted => panic!("let in"),
    }
    assert_eq!(s.client_count(), 512);
    s.disconnect(7);
    connect(&mut s, 9999);
}

#[test]
fn a_run_of_connections_fills_the_server() {
    let mut s = server();
    for fd in 0..500 {
        connect(&mut s, fd);
    }
    feed(&mut s, 3, b"PI");
    let admitted: Vec<bool> =
        (1000..1020).map(|fd| matches!(s.accept(fd), Admission::Admitted)).collect();
    assert!(admitted[..12].iter().all(|&a| a));
    assert!(admitted[12..].iter().all(|&a| !a));
    assert_eq!(s.client_count(), 512);
    assert_eq!(ask(&mut s, 3, b"NG\n"), "$PONG\r\n");
}

#[test]
fn reading_ends() {
    let mut s = server();
    connect(&mut s, 5);
    assert!(matches!(s.receive(5, ReadEvent::Interrupted), ReadStep::ReadMore));
    assert!(matches!(s.receive(5, ReadEvent::WouldBlock), ReadStep::Serve));
    assert!(matches!(s.receive(5, ReadEvent::Eof), ReadStep::Close { parting: None }));
    assert!(matches!(s.receive(5, ReadEvent::Failed), ReadStep::Close { parting: None }));
    assert!(matches!(s.receive(6, ReadEvent::WouldBlock), ReadStep::Close { parting: None }));
    assert!(matches!(s.serve(6), Service::Idle));
}

#[test]
fn a_line_that_is_too_long() {
    let mut s = server();
    connect(&mut s, 5);
    feed(&mut s, 5, &vec![b'x'; MAX_LINE]);
    assert!(matches!(s.receive(5, ReadEvent::WouldBlock), ReadStep::Serve));
    assert!(matches!(s.serve(5), Service::Idle));
    feed(&mut s, 5, b"x");
    match s.receive(5, ReadEvent::WouldBlock) {
        ReadStep::Close { parting: Some(text) } => assert_eq!(text, "-ERR line too long\r\n"),
        step => panic!("{:?}", step),
    }
    feed(&mut s, 5, b"\n");
    assert!(matches!(s.receive(5, ReadEvent::WouldBlock), ReadStep::Serve));
}

#[test]
fn file_operations_come_before_the_reply() {
    let (store, _) = Store::open(StoreConfig::new("d"), None, None).unwrap();
    let mut s = Server::new(store);
    connect(&mut s, 5);
    feed(&mut s, 5, b"SET a 1\nGET a\n");
    let then = match s.serve(5) {
        Service::Io { op: Op::WriteLog { bytes }, then } => {
            assert_eq!(bytes, b"SET a 1\n");
            then
        }
        service => panic!("{:?}", service),
    };
    let then = match s.resume(then, Outcome::Done) {
        Service::Io { op: Op::FlushLog, then } => then,
        service => panic!("{:?}", service),
    };
    assert!(matches!(s.resume(then, Outcome::Done), Service::Send { text } if text == "+OK\r\n"));
    assert_eq!(s.aol_since_snapshot(), 1);
    assert_eq!(answers(&mut s, 5), "$1\r\n");
}

#[test]
fn poll_results() {
    assert_eq!(classify(0), Readiness::Nothing);
    assert_eq!(classify(POLLIN), Readiness::Read);
    assert_eq!(classify(POLLHUP), Readiness::Read);
    assert_eq!(classify(POLLERR), Readiness::Disconnect);
    assert_eq!(classify(POLLNVAL | POLLIN), Readiness::Disconnect);
    assert_eq!(classify(0x0004), Readiness::Nothing);
    assert!(has_pending_client(POLLIN | POLLHUP));
    assert!(!has_pending_client(POLLHUP));
}
