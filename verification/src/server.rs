//! The server's side of a conversation: who is connected, what has been read of
//! each client, which lines are complete, and how each is answered.
//!
//! One thread, no locks: every event is handled by one call that borrows the
//! server mutably. Reading, writing and waiting are left to the caller.

use std::collections::HashMap;
use vstd::prelude::*;
use vstd::slice::slice_subrange;
use vstd::string::*;
use crate::command;
use crate::command::Command;
use crate::lines;
use crate::lines::NEWLINE;
use crate::reply;
use crate::reply::{Reply, ReplyView};
use crate::store;
use crate::store::{Op, OpView, Outcome, Pending, PendingView, Step, StepView, Store, StoreView};
use crate::text;

verus! {

/// The most bytes that are kept of a client without a line end.
pub const MAX_LINE: usize = 65536;

/// The most clients at a time.
pub const MAX_CLIENTS: usize = 512;

/// There is data to read.
pub const POLLIN: i16 = 0x0001;

/// An error.
pub const POLLERR: i16 = 0x0008;

/// The other side hung up.
pub const POLLHUP: i16 = 0x0010;

/// The descriptor is not open.
pub const POLLNVAL: i16 = 0x0020;

/// The store, and the bytes that were read of each client and not yet used, by
/// the client's descriptor.
pub struct Server {
    store: Store,
    clients: HashMap<i32, Vec<u8>>,
}

/// The server as a mathematical value.
pub struct ServerView {
    pub store: StoreView,
    pub clients: Map<i32, Seq<u8>>,
}

impl View for Server {
    type V = ServerView;

    closed spec fn view(&self) -> ServerView {
        ServerView {
            store: self.store@,
            clients: self.clients@.map_values(|buf: Vec<u8>| buf@),
        }
    }
}

/// Whether a new client is let in.
#[derive(Debug)]
pub enum Admission {
    Admitted,
    /// Send the text and hang up.
    Refused { parting: String },
}

/// How reading from a client went.
#[derive(Debug)]
pub enum ReadEvent {
    /// These bytes were read.
    Data(Vec<u8>),
    /// The client has closed the connection.
    Eof,
    /// There is nothing more to read for now.
    WouldBlock,
    /// A signal came in between.
    Interrupted,
    /// Anything else.
    Failed,
}

/// What to do after a read.
#[derive(Debug)]
pub enum ReadStep {
    /// Read again.
    ReadMore,
    /// Serve the lines that are complete.
    Serve,
    /// Send the text, if any, and disconnect the client.
    Close { parting: Option<String> },
}

/// What to do next for a client that is being served.
#[derive(Debug)]
pub enum Service {
    /// No complete line is left.
    Idle,
    /// Send the text, and go on serving.
    Send { text: String },
    /// Do the operation, and hand the outcome to `Server::resume`.
    Io { op: Op, then: Pending },
}

/// What to do next, as a mathematical value.
pub enum ServiceView {
    Idle,
    Send { text: Seq<char> },
    Io { op: OpView, then: PendingView },
}

impl View for Service {
    type V = ServiceView;

    open spec fn view(&self) -> ServiceView {
        match self {
            Service::Idle => ServiceView::Idle,
            Service::Send { text } => ServiceView::Send { text: text@ },
            Service::Io { op, then } => ServiceView::Io { op: op@, then: then@ },
        }
    }
}

/// What a poll result asks for.
#[derive(Debug, Clone, Copy, PartialEq, Eq)]
pub enum Readiness {
    Nothing,
    Read,
    Disconnect,
}

/// What the poll result of a client asks for.
pub open spec fn readiness(revents: i16) -> Readiness {
    if revents & (POLLERR | POLLNVAL) != 0 {
        Readiness::Disconnect
    } else if revents & (POLLIN | POLLHUP) != 0 {
        Readiness::Read
    } else {
        Readiness::Nothing
    }
}

/// An error or a descriptor that is not open asks for the client to be disconnected,
/// whatever else there is; data, or the other side hanging up, for a read; anything
/// else for nothing.
pub proof fn law_poll_results(revents: i16)
    ensures
        revents & 0x08 != 0 || revents & 0x20 != 0 ==> readiness(revents) == Readiness::Disconnect,
        revents & 0x08 == 0 && revents & 0x20 == 0 ==> {
            &&& revents & 0x01 != 0 || revents & 0x10 != 0 ==> readiness(revents)
                == Readiness::Read
            &&& revents & 0x01 == 0 && revents & 0x10 == 0 ==> readiness(revents)
                == Readiness::Nothing
        },
{
    assert(revents & (0x08i16 | 0x20i16) != 0 <==> revents & 0x08 != 0 || revents & 0x20 != 0)
        by (bit_vector);
    assert(revents & (0x01i16 | 0x10i16) != 0 <==> revents & 0x01 != 0 || revents & 0x10 != 0)
        by (bit_vector);
}

/// What the poll result of a client asks for: an error comes before data.
pub fn classify(revents: i16) -> (r: Readiness)
    ensures
        r == readiness(revents),
{
    if revents & (POLLERR | POLLNVAL) != 0 {
        Readiness::Disconnect
    } else if revents & (POLLIN | POLLHUP) != 0 {
        Readiness::Read
    } else {
        Readiness::Nothing
    }
}

/// Whether the poll result of the listener says that a client waits.
pub fn has_pending_client(revents: i16) -> (r: bool)
    ensures
        r == (revents & POLLIN != 0),
{
    revents & POLLIN != 0
}

/// What a new connection does: the server after it, and whether it is let in. It is,
/// with empty input, unless the server is full.
pub open spec fn admits(pre: ServerView, fd: i32, post: ServerView, admitted: bool) -> bool {
    &&& admitted == (pre.clients.len() < MAX_CLIENTS)
    &&& post == if admitted {
        ServerView { clients: pre.clients.insert(fd, Seq::empty()), ..pre }
    } else {
        pre
    }
}

/// What a disconnected client does: the server after it, and whether it was connected.
pub open spec fn disconnects(pre: ServerView, fd: i32, post: ServerView, was: bool) -> bool {
    &&& post == (ServerView { clients: pre.clients.remove(fd), ..pre })
    &&& was == pre.clients.contains_key(fd)
}

/// Whether too much was read without a line end.
pub open spec fn too_long(b: Seq<u8>) -> bool {
    b.len() > MAX_LINE && !b.contains(NEWLINE)
}

/// What a read event does: the server after it, and what to do next.
pub open spec fn receives(
    pre: ServerView,
    fd: i32,
    event: ReadEvent,
    post: ServerView,
    step: ReadStep,
) -> bool {
    if !pre.clients.contains_key(fd) {
        post == pre && step == (ReadStep::Close { parting: None })
    } else {
        match event {
            ReadEvent::Data(bytes) => {
                &&& post == with_input(pre, fd, bytes@)
                &&& step is ReadMore
            },
            ReadEvent::Interrupted => post == pre && step is ReadMore,
            ReadEvent::Eof | ReadEvent::Failed => {
                &&& post == pre
                &&& step == (ReadStep::Close { parting: None })
            },
            ReadEvent::WouldBlock => {
                &&& post == pre
                &&& if too_long(pre.clients[fd]) {
                    step matches ReadStep::Close { parting: Some(text) } && text@
                        == "-ERR line too long\r\n"@
                } else {
                    step is Serve
                }
            },
        }
    }
}

/// The server with more input from a client.
pub open spec fn with_input(s: ServerView, fd: i32, bytes: Seq<u8>) -> ServerView {
    ServerView { clients: s.clients.insert(fd, s.clients[fd] + bytes), ..s }
}

/// The first request in a client's input, where there is one, and the input after
/// it. A request is a complete line, without the white space around it; blank
/// lines are passed over.
pub open spec fn take_request(b: Seq<u8>) -> (Option<Seq<char>>, Seq<u8>)
    decreases b.len(),
{
    let i = lines::first_newline(b) as int;
    if i >= b.len() {
        (None, b)
    } else {
        let line = text::trimmed(lines::text_of(b.take(i + 1)));
        let rest = b.skip(i + 1);
        if line.len() == 0 {
            take_request(rest)
        } else {
            (Some(line), rest)
        }
    }
}

/// What a step of the store means for the client that it is for.
pub open spec fn service_of(step: StepView) -> ServiceView {
    match step {
        StepView::Finished(r) => ServiceView::Send { text: reply::encoding(r) },
        StepView::Io { op, then } => ServiceView::Io { op, then },
    }
}

/// What a request does to the store, and what to do next.
pub open spec fn handles(
    pre: StoreView,
    line: Seq<char>,
    post: StoreView,
    service: ServiceView,
) -> bool {
    match command::parsed(line) {
        Err(msg) => {
            &&& post == pre
            &&& service == (ServiceView::Send { text: reply::encoding(ReplyView::Error(msg)) })
        },
        Ok(cmd) => exists|step: StepView| #[trigger]
            store::executes(pre, cmd, post, step) && service == service_of(step),
    }
}

/// What serving a client does: its first request is taken from its input and
/// handled.
pub open spec fn serves(
    pre: ServerView,
    fd: i32,
    post: ServerView,
    service: ServiceView,
) -> bool {
    if !pre.clients.contains_key(fd) {
        post == pre && service is Idle
    } else {
        let (request, rest) = take_request(pre.clients[fd]);
        &&& post.clients == pre.clients.insert(fd, rest)
        &&& match request {
            None => post.store == pre.store && service is Idle,
            Some(line) => handles(pre.store, line, post.store, service),
        }
    }
}

/// The request in the text of a line, if it is not blank: the text without the
/// white space around it. It holds no line feed where the line has one at most at
/// its end.
pub fn request_of(whole: &str) -> (r: Option<String>)
    ensures
        match r {
            Some(line) => line@ == text::trimmed(whole@) && line@.len() > 0,
            None => text::trimmed(whole@).len() == 0,
        },
        !whole@.drop_last().contains('\n') ==> (r matches Some(line) ==> !line@.contains('\n')),
{
    let line: &str = text::trim(whole);
    if line.is_empty() {
        return None;
    }
    proof {
        let (a, b) = text::lemma_trimmed_ends(whole@);
        if !whole@.drop_last().contains('\n') && line@.contains('\n') {
            let j = line@.index_of('\n');
            assert(whole@[a + j] == '\n');
            if a + j == whole@.len() - 1 {
                assert(text::is_white_space(line@.last()));
            } else {
                assert(whole@.drop_last()[a + j] == '\n');
            }
        }
    }
    Some(line.to_owned())
}

fn has_newline(b: &[u8]) -> (r: bool)
    ensures
        r == b@.contains(NEWLINE),
{
    let i: usize = lines::newline_from(b, 0);
    proof {
        assert(b@.skip(0) =~= b@);
        lines::lemma_first_newline_before(b@);
        if b@.contains(NEWLINE) {
            let j = b@.index_of(NEWLINE);
            assert(b@[j] == NEWLINE);
        }
    }
    i < b.len()
}

/// Takes the first request from a client's input.
fn next_request(buf: &mut Vec<u8>) -> (r: Option<String>)
    ensures
        match r {
            Some(line) => take_request(old(buf)@) == (Some(line@), final(buf)@)
                && !line@.contains('\n'),
            None => take_request(old(buf)@) == (None::<Seq<char>>, final(buf)@),
        },
{
    let mut from: usize = 0;
    proof {
        assert(buf@.skip(0) =~= buf@);
    }
    loop
        invariant
            buf@ == old(buf)@,
            from <= buf@.len(),
            take_request(buf@.skip(from as int)) == take_request(old(buf)@),
        decreases buf@.len() - from,
    {
        let end: usize = lines::newline_from(buf.as_slice(), from);
        let ghost rest = buf@.skip(from as int);
        proof {
            lines::lemma_first_newline_before(rest);
        }
        if end == buf.len() {
            *buf = tail_of(buf.as_slice(), from);
            return None;
        }
        let whole: String = lines::lossy_text(slice_subrange(buf.as_slice(), from, end + 1));
        proof {
            let raw = buf@.subrange(from as int, end + 1);
            assert(raw =~= rest.take(end + 1 - from));
            assert(rest.skip(end + 1 - from) =~= buf@.skip(end + 1));
            assert(!raw.drop_last().contains(NEWLINE)) by {
                if raw.drop_last().contains(NEWLINE) {
                    let j = raw.drop_last().index_of(NEWLINE);
                    assert(rest[j] == NEWLINE);
                }
            }
        }
        if let Some(line) = request_of(whole.as_str()) {
            *buf = tail_of(buf.as_slice(), end + 1);
            return Some(line);
        }
        from = end + 1;
    }
}

fn tail_of(b: &[u8], from: usize) -> (r: Vec<u8>)
    requires
        from <= b@.len(),
    ensures
        r@ == b@.skip(from as int),
{
    let r: Vec<u8> = vstd::slice::slice_to_vec(slice_subrange(b, from, b.len()));
    proof {
        assert(r@ =~= b@.skip(from as int));
    }
    r
}

fn service_for(step: Step) -> (r: Service)
    ensures
        r@ == service_of(step@),
{
    match step {
        Step::Finished(r) => Service::Send { text: r.encode() },
        Step::Io { op, then } => Service::Io { op, then },
    }
}

impl Server {
    /// The store is well formed, and there are no more clients than allowed.
    pub closed spec fn wf(&self) -> bool {
        &&& self.store.wf()
        &&& self.clients@.len() <= MAX_CLIENTS
    }

    /// There are finitely many clients, and never more than allowed.
    pub proof fn law_clients_are_limited(&self)
        requires
            self.wf(),
        ensures
            self@.clients.dom().finite(),
            self@.clients.len() <= MAX_CLIENTS,
    {
        broadcast use vstd::std_specs::hash::group_hash_axioms;

        assert(self@.clients.dom() =~= self.clients@.dom());
    }

    /// A server without clients.
    pub fn new(store: Store) -> (r: Server)
        requires
            store.wf(),
        ensures
            r.wf(),
            r@ == (ServerView { store: store@, clients: Map::empty() }),
    {
        let r = Server { store, clients: HashMap::new() };
        proof {
            assert(r@.clients =~= Map::empty());
        }
        r
    }

    /// A client connects. It is let in unless the server is full.
    pub fn accept(&mut self, fd: i32) -> (r: Admission)
        requires
            old(self).wf(),
        ensures
            final(self).wf(),
            admits(old(self)@, fd, final(self)@, r is Admitted),
            r matches Admission::Refused { parting } ==> parting@ == "-ERR server full\r\n"@,
    {
        broadcast use vstd::std_specs::hash::group_hash_axioms;

        proof {
            assert(self@.clients.dom() =~= self.clients@.dom());
        }
        if self.clients.len() >= MAX_CLIENTS {
            return Admission::Refused { parting: "-ERR server full\r\n".to_owned() };
        }
        self.clients.insert(fd, Vec::new());
        proof {
            assert(self@.clients =~= old(self)@.clients.insert(fd, Seq::empty()));
        }
        Admission::Admitted
    }

    /// Something was read from a client, or reading ended.
    pub fn receive(&mut self, fd: i32, event: ReadEvent) -> (step: ReadStep)
        requires
            old(self).wf(),
        ensures
            final(self).wf(),
            receives(old(self)@, fd, event, final(self)@, step),
    {
        broadcast use vstd::std_specs::hash::group_hash_axioms;

        if !self.clients.contains_key(&fd) {
            return ReadStep::Close { parting: None };
        }
        match event {
            ReadEvent::Data(bytes) => {
                let mut more: Vec<u8> = bytes;
                if let Some(buf) = self.clients.remove(&fd) {
                    let mut buf: Vec<u8> = buf;
                    buf.append(&mut more);
                    self.clients.insert(fd, buf);
                }
                proof {
                    assert(self@.clients =~= with_input(old(self)@, fd, event->Data_0@).clients);
                }
                ReadStep::ReadMore
            },
            ReadEvent::Interrupted => ReadStep::ReadMore,
            ReadEvent::Eof | ReadEvent::Failed => ReadStep::Close { parting: None },
            ReadEvent::WouldBlock => {
                if let Some(buf) = self.clients.get(&fd) {
                    if buf.len() > MAX_LINE && !has_newline(buf.as_slice()) {
                        return ReadStep::Close {
                            parting: Some("-ERR line too long\r\n".to_owned()),
                        };
                    }
                }
                ReadStep::Serve
            },
        }
    }

    /// Takes the first request of a client from its input and handles it, up to
    /// the first file operation that it needs.
    pub fn serve(&mut self, fd: i32) -> (service: Service)
        requires
            old(self).wf(),
            old(self)@.store.since < u64::MAX,
        ensures
            final(self).wf(),
            serves(old(self)@, fd, final(self)@, service@),
            old(self)@.clients.contains_key(fd) ==> (take_request(old(self)@.clients[fd]).0
                matches Some(line) ==> !line.contains('\n')),
    {
        broadcast use vstd::std_specs::hash::group_hash_axioms;

        let request: Option<String> = match self.clients.remove(&fd) {
            Some(buf) => {
                let mut buf: Vec<u8> = buf;
                let request: Option<String> = next_request(&mut buf);
                self.clients.insert(fd, buf);
                request
            },
            None => None,
        };
        proof {
            if old(self)@.clients.contains_key(fd) {
                let rest = take_request(old(self)@.clients[fd]).1;
                assert(self@.clients =~= old(self)@.clients.insert(fd, rest));
            } else {
                assert(self@.clients =~= old(self)@.clients);
            }
        }
        match request {
            None => Service::Idle,
            Some(line) => self.handle(line.as_str()),
        }
    }

    /// Handles a request, up to the first file operation that it needs.
    pub fn handle(&mut self, line: &str) -> (service: Service)
        requires
            old(self).wf(),
            old(self)@.store.since < u64::MAX,
        ensures
            final(self).wf(),
            final(self)@.clients == old(self)@.clients,
            handles(old(self)@.store, line@, final(self)@.store, service@),
    {
        match Command::parse(line) {
            Err(msg) => Service::Send { text: Reply::Error(msg).encode() },
            Ok(cmd) => {
                let step: Step = self.store.execute(&cmd);
                proof {
                    assert(store::executes(old(self)@.store, cmd@, self@.store, step@));
                }
                service_for(step)
            },
        }
    }

    /// Goes on with a request after a file operation.
    pub fn resume(&mut self, pending: Pending, outcome: Outcome) -> (service: Service)
        requires
            old(self).wf(),
            pending is LogFlush ==> old(self)@.store.since < u64::MAX,
            outcome is Absent ==> pending is LogTruncation,
        ensures
            final(self).wf(),
            final(self)@.clients == old(self)@.clients,
            exists|step: StepView| #[trigger]
                store::resumes(
                    old(self)@.store,
                    pending@,
                    outcome@,
                    final(self)@.store,
                    step,
                ) && service@ == service_of(step),
    {
        let step: Step = self.store.resume(pending, outcome);
        proof {
            assert(store::resumes(old(self)@.store, pending@, outcome@, self@.store, step@));
        }
        service_for(step)
    }

    /// A client is gone: its input is dropped. Says whether it was connected.
    pub fn disconnect(&mut self, fd: i32) -> (r: bool)
        requires
            old(self).wf(),
        ensures
            final(self).wf(),
            disconnects(old(self)@, fd, final(self)@, r),
    {
        broadcast use vstd::std_specs::hash::group_hash_axioms;

        let removed: Option<Vec<u8>> = self.clients.remove(&fd);
        proof {
            assert(self@.clients =~= old(self)@.clients.remove(fd));
        }
        removed.is_some()
    }

    /// How many clients there are.
    pub fn client_count(&self) -> (r: usize)
        ensures
            r == self@.clients.len(),
    {
        broadcast use vstd::std_specs::hash::group_hash_axioms;

        proof {
            assert(self@.clients.dom() =~= self.clients@.dom());
        }
        self.clients.len()
    }

    /// How many keys there are.
    pub fn key_count(&self) -> (r: usize)
        requires
            self.wf(),
        ensures
            r == self@.store.data.len(),
    {
        self.store.len()
    }

    /// How many log entries were counted since the last snapshot.
    pub fn aol_since_snapshot(&self) -> (r: u64)
        ensures
            r == self@.store.since,
    {
        self.store.aol_since_snapshot()
    }
}

} // verus!
