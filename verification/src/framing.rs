//! What clients can rely on, however their bytes arrive.

use vstd::prelude::*;
use vstd::utf8::*;
use crate::behaviour;
use crate::command;
use crate::command::CommandView;
use crate::durability;
use crate::durability::Disk;
use crate::grammar;
use crate::lines;
use crate::lines::NEWLINE;
use crate::recovery;
use crate::reply;
use crate::reply::ReplyView;
use crate::server;
use crate::server::{ReadEvent, ReadStep, ServerView, ServiceView};
use crate::store;
use crate::store::{OutcomeView, StepView, StoreView};
use crate::text;

verus! {

/// A complete line of text is a request: the line without the white space around it,
/// all of it. What follows the line end is left.
pub proof fn law_lines_are_requests(line: Seq<char>, rest: Seq<u8>)
    requires
        !line.contains('\n'),
        !grammar::blank(line),
    ensures
        server::take_request(encode_utf8(line + seq!['\n']) + rest) == (
            Some(text::trimmed(line)),
            rest,
        ),
{
    lemma_taken(line, rest);
    let (a, b) = text::law_trimming_takes_off_white_space(line);
    assert(text::trimmed(line).len() > 0) by {
        if a == b {
            let j = choose|j: int| 0 <= j < line.len() && !text::is_white_space(line[j]);
            assert(j < a || j >= b);
        }
    }
}

/// A blank line is no request: it is passed over.
pub proof fn law_blank_lines_are_no_requests(line: Seq<char>, rest: Seq<u8>)
    requires
        !line.contains('\n'),
        grammar::blank(line),
    ensures
        server::take_request(encode_utf8(line + seq!['\n']) + rest) == server::take_request(rest),
{
    lemma_taken(line, rest);
    text::lemma_trimmed_at(line, line.len() as int, line.len() as int);
}

proof fn lemma_taken(line: Seq<char>, rest: Seq<u8>)
    requires
        !line.contains('\n'),
    ensures
        server::take_request(encode_utf8(line + seq!['\n']) + rest) == if text::trimmed(
            line,
        ).len() == 0 {
            server::take_request(rest)
        } else {
            (Some(text::trimmed(line)), rest)
        },
{
    let head = encode_utf8(line + seq!['\n']);
    let bytes = encode_utf8(line);
    let all = head + rest;
    let n = bytes.len() as int;
    lines::lemma_encode_joined(line, seq!['\n']);
    lines::lemma_encode_newline();
    lines::lemma_encode_without_newline(line);
    assert forall|j: int| 0 <= j < n implies all[j] != NEWLINE by {
        assert(all[j] == bytes[j]);
        assert(bytes.contains(bytes[j]));
    }
    lines::lemma_first_newline_at(all, n);
    assert(all.take(n + 1) =~= head);
    assert(all.skip(n + 1) =~= rest);
    encode_utf8_valid_utf8(line + seq!['\n']);
    encode_utf8_decode_utf8(line + seq!['\n']);
    let nothing: Seq<char> = Seq::empty();
    assert(line + seq!['\n'] =~= nothing + line + seq!['\n']);
    text::lemma_trimmed_padded(nothing, line, seq!['\n']);
}

/// A complete line that is not UTF-8 is a request all the same, with replacement
/// characters.
pub proof fn law_lines_that_are_no_text_are_requests(bytes: Seq<u8>, rest: Seq<u8>)
    requires
        !bytes.contains(NEWLINE),
        !valid_utf8(bytes.push(NEWLINE)),
    ensures
        server::take_request(bytes.push(NEWLINE) + rest) == if text::trimmed(
            lines::lossy_utf8(bytes.push(NEWLINE)),
        ).len() == 0 {
            server::take_request(rest)
        } else {
            (Some(text::trimmed(lines::lossy_utf8(bytes.push(NEWLINE)))), rest)
        },
{
    let all = bytes.push(NEWLINE) + rest;
    let n = bytes.len() as int;
    assert forall|j: int| 0 <= j < n implies all[j] != NEWLINE by {
        assert(all[j] == bytes[j]);
        assert(bytes.contains(bytes[j]));
    }
    lines::lemma_first_newline_at(all, n);
    assert(all.take(n + 1) =~= bytes.push(NEWLINE));
    assert(all.skip(n + 1) =~= rest);
}

/// Input without a line end holds no request, and is kept.
pub proof fn law_unfinished_input_is_kept(b: Seq<u8>)
    requires
        !b.contains(NEWLINE),
    ensures
        server::take_request(b) == (None::<Seq<char>>, b),
{
    assert forall|j: int| 0 <= j < b.len() implies b[j] != NEWLINE by {
        assert(b.contains(b[j]));
    }
    lines::lemma_first_newline_at(b, b.len() as int);
}

/// What reading from a client does: bytes are kept behind those from before, and it is
/// read again; an interruption changes nothing; at the end of the stream or after a
/// failure the client is disconnected without a word. When there is nothing more to
/// read the client is served, unless it sent more than 65536 bytes without a line end:
/// then it is told so and disconnected. The store and the other clients stay as they
/// are.
pub proof fn law_what_reading_does(
    pre: ServerView,
    fd: i32,
    event: ReadEvent,
    post: ServerView,
    step: ReadStep,
)
    requires
        pre.clients.contains_key(fd),
        server::receives(pre, fd, event, post, step),
    ensures
        post.store == pre.store,
        post.clients.dom() == pre.clients.dom(),
        forall|other: i32|
            other != fd && #[trigger] pre.clients.contains_key(other) ==> post.clients[other]
                == pre.clients[other],
        post.clients[fd] == match event {
            ReadEvent::Data(bytes) => pre.clients[fd] + bytes@,
            _ => pre.clients[fd],
        },
        match event {
            ReadEvent::Data(_) => step is ReadMore,
            ReadEvent::Interrupted => step is ReadMore,
            ReadEvent::Eof => step matches ReadStep::Close { parting } && parting is None,
            ReadEvent::Failed => step matches ReadStep::Close { parting } && parting is None,
            ReadEvent::WouldBlock => {
                let long = pre.clients[fd].len() > 65536 && !pre.clients[fd].contains(10u8);
                &&& !long ==> step is Serve
                &&& long ==> (step matches ReadStep::Close { parting: Some(said) } && said@
                    == "-ERR line too long\r\n"@)
            },
        },
{
    assert(post.clients.dom() =~= pre.clients.dom());
}

/// Who is not connected is not served: an unknown descriptor is closed, and nothing
/// changes.
pub proof fn law_strangers_are_not_served(
    pre: ServerView,
    fd: i32,
    event: ReadEvent,
    post: ServerView,
    step: ReadStep,
    served: ServerView,
    service: ServiceView,
)
    requires
        !pre.clients.contains_key(fd),
        server::receives(pre, fd, event, post, step),
        server::serves(pre, fd, served, service),
    ensures
        post == pre,
        step matches ReadStep::Close { parting } && parting is None,
        served == pre,
        service is Idle,
{
}

/// Serving a client takes its first request, if there is one, and leaves the rest of
/// its input; without a request nothing happens but that blank lines are gone.
pub proof fn law_serving_takes_the_first_request(
    pre: ServerView,
    fd: i32,
    post: ServerView,
    service: ServiceView,
)
    requires
        pre.clients.contains_key(fd),
        server::serves(pre, fd, post, service),
    ensures
        post.clients.dom() == pre.clients.dom(),
        post.clients[fd] == server::take_request(pre.clients[fd]).1,
        match server::take_request(pre.clients[fd]).0 {
            None => service is Idle && post.store == pre.store,
            Some(line) => server::handles(pre.store, line, post.store, service),
        },
{
    assert(post.clients.dom() =~= pre.clients.dom());
}

/// A request that is a command is executed, and its reply is sent as it is encoded;
/// where it needs a file operation, that operation comes first.
pub proof fn law_commands_are_executed_and_answered(
    pre: StoreView,
    line: Seq<char>,
    cmd: CommandView,
    post: StoreView,
    service: ServiceView,
) -> (step: StepView)
    requires
        command::parsed(line) == Ok::<_, Seq<char>>(cmd),
        server::handles(pre, line, post, service),
    ensures
        store::executes(pre, cmd, post, step),
        match step {
            StepView::Finished(r) => service == (ServiceView::Send { text: reply::encoding(r) }),
            StepView::Io { op, then } => service == (ServiceView::Io { op, then }),
        },
{
    choose|step: StepView| #[trigger]
        store::executes(pre, cmd, post, step) && service == server::service_of(step)
}

/// A new connection gets in exactly while there are fewer than 512
/// clients, with empty input; nobody else is touched.
pub proof fn law_a_connection_gets_in_or_not(
    pre: ServerView,
    fd: i32,
    post: ServerView,
    admitted: bool,
)
    requires
        server::admits(pre, fd, post, admitted),
    ensures
        admitted <==> pre.clients.len() < 512,
        post.store == pre.store,
        admitted ==> post.clients == pre.clients.insert(fd, Seq::empty()),
        !admitted ==> post.clients == pre.clients,
{
}

/// A disconnected client is gone, and its input with it. The store and the other
/// clients stay as they are.
pub proof fn law_a_disconnect_touches_nobody_else(
    pre: ServerView,
    fd: i32,
    post: ServerView,
    was: bool,
    other: i32,
)
    requires
        server::disconnects(pre, fd, post, was),
        other != fd,
    ensures
        was <==> pre.clients.contains_key(fd),
        !post.clients.contains_key(fd),
        post.store == pre.store,
        post.clients.contains_key(other) <==> pre.clients.contains_key(other),
        pre.clients.contains_key(other) ==> post.clients[other] == pre.clients[other],
{
}

/// The requests in a client's input, in order.
pub open spec fn requests(b: Seq<u8>) -> Seq<Seq<char>>
    decreases b.len(),
{
    let i = lines::first_newline(b) as int;
    if i >= b.len() {
        Seq::empty()
    } else {
        let line = text::trimmed(lines::text_of(b.take(i + 1)));
        let later = requests(b.skip(i + 1));
        if line.len() == 0 {
            later
        } else {
            seq![line] + later
        }
    }
}

/// What a client's input holds after its last line end.
pub open spec fn incomplete(b: Seq<u8>) -> Seq<u8>
    decreases b.len(),
{
    let i = lines::first_newline(b) as int;
    if i >= b.len() {
        b
    } else {
        incomplete(b.skip(i + 1))
    }
}

/// Requests are taken in order, each once, until only an incomplete line is left.
pub proof fn law_requests_are_taken_in_order(b: Seq<u8>)
    ensures
        match server::take_request(b) {
            (Some(line), rest) => {
                &&& requests(b) == seq![line] + requests(rest)
                &&& incomplete(b) == incomplete(rest)
                &&& rest.len() < b.len()
            },
            (None, rest) => {
                &&& requests(b) == Seq::<Seq<char>>::empty()
                &&& rest == incomplete(b)
            },
        },
    decreases b.len(),
{
    let i = lines::first_newline(b) as int;
    if i < b.len() {
        let line = text::trimmed(lines::text_of(b.take(i + 1)));
        if line.len() == 0 {
            law_requests_are_taken_in_order(b.skip(i + 1));
        }
    }
}

/// Where the input is cut into pieces does not matter: the requests of the first
/// piece, then those of what it left incomplete with the second piece, are the
/// requests of both pieces together.
pub proof fn law_input_can_come_in_pieces(a: Seq<u8>, b: Seq<u8>)
    ensures
        requests(a + b) == requests(a) + requests(incomplete(a) + b),
        incomplete(a + b) == incomplete(incomplete(a) + b),
    decreases a.len(),
{
    lines::lemma_first_newline_before(a);
    let i = lines::first_newline(a) as int;
    if i < a.len() {
        let s = a + b;
        lines::lemma_first_newline_at(s, i);
        assert(s.take(i + 1) =~= a.take(i + 1));
        assert(s.skip(i + 1) =~= a.skip(i + 1) + b);
        law_input_can_come_in_pieces(a.skip(i + 1), b);
        assert(requests(s) =~= requests(a) + requests(incomplete(a) + b));
    } else {
        assert(requests(a) + requests(a + b) =~= requests(a + b));
    }
}

/// What a service comes to once its file operations are over, however they go: the
/// store after it, and the text that is sent. `n` bounds the operations.
pub open spec fn finishes(
    s: StoreView,
    service: ServiceView,
    post: StoreView,
    sent: Seq<char>,
    n: nat,
) -> bool
    decreases n,
{
    match service {
        ServiceView::Idle => false,
        ServiceView::Send { text } => post == s && sent == text,
        ServiceView::Io { op: _, then } => {
            &&& n > 0
            &&& exists|outcome: OutcomeView, mid: StoreView, step: StepView| #[trigger]
                store::resumes(s, then, outcome, mid, step) && finishes(
                    mid,
                    server::service_of(step),
                    post,
                    sent,
                    (n - 1) as nat,
                )
        },
    }
}

/// A request from its start to its end: the store after it, and the text that is
/// sent.
pub open spec fn answers(
    pre: StoreView,
    line: Seq<char>,
    post: StoreView,
    sent: Seq<char>,
) -> bool {
    exists|mid: StoreView, service: ServiceView, n: nat| #[trigger]
        server::handles(pre, line, mid, service) && #[trigger] finishes(
            mid,
            service,
            post,
            sent,
            n,
        )
}

/// Requests, one after the other, each from its start to its end, and what is sent
/// for each.
pub open spec fn answers_all(
    pre: StoreView,
    input: Seq<Seq<char>>,
    post: StoreView,
    sent: Seq<Seq<char>>,
) -> bool
    decreases input.len(),
{
    &&& input.len() == sent.len()
    &&& if input.len() == 0 {
        post == pre
    } else {
        exists|mid: StoreView| #[trigger]
            answers(pre, input[0], mid, sent[0]) && answers_all(
                mid,
                input.skip(1),
                post,
                sent.skip(1),
            )
    }
}

/// A client is served until no request is left: again and again its next request is
/// taken and brought to its end, and what comes of each is sent.
pub open spec fn serves_all(
    pre: ServerView,
    fd: i32,
    post: ServerView,
    sent: Seq<Seq<char>>,
) -> bool
    decreases sent.len(),
{
    if sent.len() == 0 {
        exists|service: ServiceView| #[trigger]
            server::serves(pre, fd, post, service) && service is Idle
    } else {
        exists|mid: ServerView, service: ServiceView, s: StoreView, n: nat| #[trigger]
            server::serves(pre, fd, mid, service) && #[trigger] finishes(
                mid.store,
                service,
                s,
                sent[0],
                n,
            ) && serves_all(ServerView { store: s, ..mid }, fd, post, sent.skip(1))
    }
}

/// A readable client: the bytes are read, they do not make too long a line, and the
/// client is served until no request is left.
pub open spec fn reads_and_serves(
    pre: ServerView,
    fd: i32,
    bytes: Seq<u8>,
    post: ServerView,
    sent: Seq<Seq<char>>,
) -> bool {
    let mid = server::with_input(pre, fd, bytes);
    &&& !server::too_long(mid.clients[fd])
    &&& serves_all(mid, fd, post, sent)
}

/// Serving a client until no request is left answers the requests in its input, in
/// order, and leaves what is incomplete. The other clients keep their input.
pub proof fn law_serving_answers_every_request(
    pre: ServerView,
    fd: i32,
    post: ServerView,
    sent: Seq<Seq<char>>,
)
    requires
        pre.clients.contains_key(fd),
    ensures
        serves_all(pre, fd, post, sent) <==> {
            &&& answers_all(pre.store, requests(pre.clients[fd]), post.store, sent)
            &&& post.clients == pre.clients.insert(fd, incomplete(pre.clients[fd]))
        },
    decreases sent.len(),
{
    let b = pre.clients[fd];
    let input = requests(b);
    law_requests_are_taken_in_order(b);
    let (request, rest) = server::take_request(b);
    if sent.len() == 0 {
        if serves_all(pre, fd, post, sent) {
            let service = choose|service: ServiceView| #[trigger]
                server::serves(pre, fd, post, service) && service is Idle;
            if request is Some {
                lemma_handled_is_not_idle(pre.store, request->Some_0, post.store, service);
            }
        }
        if answers_all(pre.store, input, post.store, sent) && post.clients == pre.clients.insert(
            fd,
            incomplete(b),
        ) {
            assert(request is None);
            assert(server::serves(pre, fd, post, ServiceView::Idle));
        }
    } else {
        let later = sent.skip(1);
        if serves_all(pre, fd, post, sent) {
            let (mid, service, s, n) =
                choose|mid: ServerView, service: ServiceView, s: StoreView, n: nat| #[trigger]
                server::serves(pre, fd, mid, service) && #[trigger] finishes(
                    mid.store,
                    service,
                    s,
                    sent[0],
                    n,
                ) && serves_all(ServerView { store: s, ..mid }, fd, post, later);
            let next = ServerView { store: s, ..mid };
            assert(request is Some);
            assert(server::handles(pre.store, request->Some_0, mid.store, service));
            law_serving_answers_every_request(next, fd, post, later);
            assert(next.clients[fd] == rest);
            assert(input[0] == request->Some_0);
            assert(input.skip(1) =~= requests(rest));
            assert(answers(pre.store, input[0], s, sent[0]));
            assert(post.clients =~= pre.clients.insert(fd, incomplete(b)));
        }
        if answers_all(pre.store, input, post.store, sent) && post.clients == pre.clients.insert(
            fd,
            incomplete(b),
        ) {
            assert(request is Some);
            assert(input[0] == request->Some_0);
            assert(input.skip(1) =~= requests(rest));
            let s = choose|s: StoreView| #[trigger]
                answers(pre.store, input[0], s, sent[0]) && answers_all(
                    s,
                    input.skip(1),
                    post.store,
                    later,
                );
            let (store1, service, n) = choose|store1: StoreView, service: ServiceView, n: nat|
                #[trigger] server::handles(pre.store, input[0], store1, service) && #[trigger]
                    finishes(store1, service, s, sent[0], n);
            let mid = ServerView { store: store1, clients: pre.clients.insert(fd, rest) };
            let next = ServerView { store: s, ..mid };
            assert(server::serves(pre, fd, mid, service));
            assert(next.clients.insert(fd, incomplete(rest)) =~= post.clients);
            law_serving_answers_every_request(next, fd, post, later);
            assert(finishes(mid.store, service, s, sent[0], n));
        }
    }
}

proof fn lemma_handled_is_not_idle(
    pre: StoreView,
    line: Seq<char>,
    post: StoreView,
    service: ServiceView,
)
    requires
        server::handles(pre, line, post, service),
    ensures
        service !is Idle,
{
}

proof fn lemma_answers_joined(
    pre: StoreView,
    a: Seq<Seq<char>>,
    mid: StoreView,
    sent_a: Seq<Seq<char>>,
    b: Seq<Seq<char>>,
    post: StoreView,
    sent_b: Seq<Seq<char>>,
)
    requires
        answers_all(pre, a, mid, sent_a),
        answers_all(mid, b, post, sent_b),
    ensures
        answers_all(pre, a + b, post, sent_a + sent_b),
    decreases a.len(),
{
    if a.len() == 0 {
        assert(a + b =~= b);
        assert(sent_a + sent_b =~= sent_b);
    } else {
        let s = choose|s: StoreView| #[trigger]
            answers(pre, a[0], s, sent_a[0]) && answers_all(s, a.skip(1), mid, sent_a.skip(1));
        lemma_answers_joined(s, a.skip(1), mid, sent_a.skip(1), b, post, sent_b);
        assert((a + b).skip(1) =~= a.skip(1) + b);
        assert((sent_a + sent_b).skip(1) =~= sent_a.skip(1) + sent_b);
        assert(answers(pre, (a + b)[0], s, (sent_a + sent_b)[0]));
    }
}

proof fn lemma_answers_split(
    pre: StoreView,
    a: Seq<Seq<char>>,
    b: Seq<Seq<char>>,
    post: StoreView,
    sent: Seq<Seq<char>>,
) -> (mid: StoreView)
    requires
        answers_all(pre, a + b, post, sent),
    ensures
        answers_all(pre, a, mid, sent.take(a.len() as int)),
        answers_all(mid, b, post, sent.skip(a.len() as int)),
    decreases a.len(),
{
    let n = a.len() as int;
    if n == 0 {
        assert(a + b =~= b);
        assert(sent.skip(0) =~= sent);
        pre
    } else {
        assert((a + b).skip(1) =~= a.skip(1) + b);
        let s = choose|s: StoreView| #[trigger]
            answers(pre, (a + b)[0], s, sent[0]) && answers_all(
                s,
                (a + b).skip(1),
                post,
                sent.skip(1),
            );
        let mid = lemma_answers_split(s, a.skip(1), b, post, sent.skip(1));
        assert(sent.skip(1).take(n - 1) =~= sent.take(n).skip(1));
        assert(sent.skip(1).skip(n - 1) =~= sent.skip(n));
        assert(answers(pre, a[0], s, sent.take(n)[0]));
        mid
    }
}

proof fn lemma_incomplete_is_shorter(b: Seq<u8>)
    ensures
        incomplete(b).len() <= b.len(),
    decreases b.len(),
{
    let i = lines::first_newline(b) as int;
    if i < b.len() {
        lemma_incomplete_is_shorter(b.skip(i + 1));
    }
}

/// How the stream of a client is cut into reads does not matter. Two readable
/// events, with the bytes `a` and then `b`, can leave a server and have texts sent
/// exactly if one event with the bytes of both can: the same replies in the same
/// order, the same store, and the same input that is left.
pub proof fn law_cutting_the_stream_does_not_matter(
    pre: ServerView,
    fd: i32,
    a: Seq<u8>,
    b: Seq<u8>,
    post: ServerView,
    sent: Seq<Seq<char>>,
)
    requires
        pre.clients.contains_key(fd),
        pre.clients[fd].len() + a.len() + b.len() <= server::MAX_LINE,
    ensures
        reads_and_serves(pre, fd, a + b, post, sent) <==> exists|
            mid: ServerView,
            sent_a: Seq<Seq<char>>,
            sent_b: Seq<Seq<char>>,
        | #[trigger]
            reads_and_serves(pre, fd, a, mid, sent_a) && #[trigger] reads_and_serves(
                mid,
                fd,
                b,
                post,
                sent_b,
            ) && sent == sent_a + sent_b,
{
    let one = server::with_input(pre, fd, a);
    let both = server::with_input(pre, fd, a + b);
    let first = one.clients[fd];
    let reqs_a = requests(first);
    let reqs_b = requests(incomplete(first) + b);
    assert(both.clients[fd] =~= first + b);
    law_input_can_come_in_pieces(first, b);
    lemma_incomplete_is_shorter(first);
    law_serving_answers_every_request(both, fd, post, sent);
    if reads_and_serves(pre, fd, a + b, post, sent) {
        let s = lemma_answers_split(pre.store, reqs_a, reqs_b, post.store, sent);
        let n = reqs_a.len() as int;
        let mid = ServerView { store: s, clients: one.clients.insert(fd, incomplete(first)) };
        let two = server::with_input(mid, fd, b);
        law_serving_answers_every_request(one, fd, mid, sent.take(n));
        law_serving_answers_every_request(two, fd, post, sent.skip(n));
        assert(two.clients[fd] == incomplete(first) + b);
        assert(post.clients =~= two.clients.insert(fd, incomplete(incomplete(first) + b)));
        assert(reads_and_serves(pre, fd, a, mid, sent.take(n)));
        assert(reads_and_serves(mid, fd, b, post, sent.skip(n)));
        assert(sent =~= sent.take(n) + sent.skip(n));
    }
    if exists|mid: ServerView, sent_a: Seq<Seq<char>>, sent_b: Seq<Seq<char>>| #[trigger]
        reads_and_serves(pre, fd, a, mid, sent_a) && #[trigger] reads_and_serves(
            mid,
            fd,
            b,
            post,
            sent_b,
        ) && sent == sent_a + sent_b {
        let (mid, sent_a, sent_b) =
            choose|mid: ServerView, sent_a: Seq<Seq<char>>, sent_b: Seq<Seq<char>>| #[trigger]
            reads_and_serves(pre, fd, a, mid, sent_a) && #[trigger] reads_and_serves(
                mid,
                fd,
                b,
                post,
                sent_b,
            ) && sent == sent_a + sent_b;
        let two = server::with_input(mid, fd, b);
        law_serving_answers_every_request(one, fd, mid, sent_a);
        law_serving_answers_every_request(two, fd, post, sent_b);
        lemma_answers_joined(
            pre.store,
            reqs_a,
            mid.store,
            sent_a,
            reqs_b,
            post.store,
            sent_b,
        );
        assert(post.clients =~= both.clients.insert(fd, incomplete(first + b)));
    }
}

/// Connections that come one after the other, and which of them are let in.
pub open spec fn admits_all(
    pre: ServerView,
    fds: Seq<i32>,
    post: ServerView,
    admitted: Seq<bool>,
) -> bool
    decreases fds.len(),
{
    &&& fds.len() == admitted.len()
    &&& if fds.len() == 0 {
        post == pre
    } else {
        exists|mid: ServerView| #[trigger]
            server::admits(mid, fds.last(), post, admitted.last()) && admits_all(
                pre,
                fds.drop_last(),
                mid,
                admitted.drop_last(),
            )
    }
}

/// The clients with new ones, each with empty input.
pub open spec fn with_clients(clients: Map<i32, Seq<u8>>, fds: Seq<i32>) -> Map<i32, Seq<u8>>
    decreases fds.len(),
{
    if fds.len() == 0 {
        clients
    } else {
        with_clients(clients, fds.drop_last()).insert(fds.last(), Seq::empty())
    }
}

/// Of connections that come one after the other the first ones are let in, as many
/// as there is room for, and the later ones are refused. The clients from before and
/// the store stay as they are, and there are never more clients than allowed.
pub proof fn law_admissions_fill_the_server(
    pre: ServerView,
    fds: Seq<i32>,
    post: ServerView,
    admitted: Seq<bool>,
)
    requires
        pre.clients.dom().finite(),
        pre.clients.len() <= server::MAX_CLIENTS,
        forall|i: int| 0 <= i < fds.len() ==> !pre.clients.contains_key(#[trigger] fds[i]),
        forall|i: int, j: int|
            0 <= i < j < fds.len() && j < server::MAX_CLIENTS - pre.clients.len()
                ==> #[trigger] fds[i] != #[trigger] fds[j],
        admits_all(pre, fds, post, admitted),
    ensures
        ({
            let room = server::MAX_CLIENTS - pre.clients.len();
            let entered = if fds.len() < room {
                fds.len() as int
            } else {
                room
            };
            &&& forall|i: int| 0 <= i < fds.len() ==> #[trigger] admitted[i] == (i < room)
            &&& post.clients == with_clients(pre.clients, fds.take(entered))
            &&& post.clients.dom().finite()
            &&& post.clients.len() == pre.clients.len() + entered
            &&& post.clients.len() <= server::MAX_CLIENTS
            &&& post.store == pre.store
            &&& forall|fd: i32| #[trigger] pre.clients.contains_key(fd) ==> {
                &&& post.clients.contains_key(fd)
                &&& post.clients[fd] == pre.clients[fd]
            }
            &&& forall|fd: i32| #[trigger]
                post.clients.contains_key(fd) ==> pre.clients.contains_key(fd) || exists|i: int|
                    0 <= i < entered && #[trigger] fds[i] == fd
        }),
    decreases fds.len(),
{
    let room = server::MAX_CLIENTS - pre.clients.len();
    if fds.len() == 0 {
        assert(fds.take(0) =~= Seq::empty());
    } else {
        let before = fds.drop_last();
        let last = fds.last();
        let mid = choose|mid: ServerView| #[trigger]
            server::admits(mid, last, post, admitted.last()) && admits_all(
                pre,
                before,
                mid,
                admitted.drop_last(),
            );
        assert forall|i: int| 0 <= i < before.len() implies !pre.clients.contains_key(
            #[trigger] before[i],
        ) by {
            assert(before[i] == fds[i]);
        }
        assert forall|i: int, j: int|
            0 <= i < j < before.len() && j < room implies #[trigger] before[i]
            != #[trigger] before[j] by {
            assert(fds[i] != fds[j]);
        }
        law_admissions_fill_the_server(pre, before, mid, admitted.drop_last());
        assert forall|i: int| 0 <= i < fds.len() implies #[trigger] admitted[i] == (i < room) by {
            if i < before.len() {
                assert(admitted.drop_last()[i] == admitted[i]);
            }
        }
        assert(!pre.clients.contains_key(fds[fds.len() - 1]));
        if before.len() < room {
            assert(fds.take(fds.len() as int).drop_last() =~= before.take(before.len() as int));
            assert(!mid.clients.contains_key(last)) by {
                if mid.clients.contains_key(last) {
                    let i = choose|i: int| 0 <= i < before.len() && #[trigger] before[i] == last;
                    assert(fds[i] != fds[fds.len() - 1]);
                }
            }
            assert forall|fd: i32| #[trigger]
                post.clients.contains_key(fd) implies pre.clients.contains_key(fd) || exists|i: int|
                0 <= i < fds.len() && #[trigger] fds[i] == fd by {
                if fd == last {
                    assert(fds[fds.len() - 1] == fd);
                } else if !pre.clients.contains_key(fd) {
                    assert(mid.clients.contains_key(fd));
                    let i = choose|i: int| 0 <= i < before.len() && #[trigger] before[i] == fd;
                    assert(fds[i] == fd);
                }
            }
        } else {
            assert(fds.take(room) =~= before.take(room));
            assert forall|fd: i32| #[trigger]
                post.clients.contains_key(fd) implies pre.clients.contains_key(fd) || exists|i: int|
                0 <= i < room && #[trigger] fds[i] == fd by {
                if !pre.clients.contains_key(fd) {
                    let i = choose|i: int| 0 <= i < room && #[trigger] before[i] == fd;
                    assert(fds[i] == fd);
                }
            }
        }
    }
}

/// Bytes that arrive in two reads are kept as if they had come in one.
pub proof fn law_reads_add_up(s: ServerView, fd: i32, a: Seq<u8>, b: Seq<u8>)
    requires
        s.clients.contains_key(fd),
    ensures
        server::with_input(server::with_input(s, fd, a), fd, b) == server::with_input(
            s,
            fd,
            a + b,
        ),
{
    let two = server::with_input(server::with_input(s, fd, a), fd, b);
    let one = server::with_input(s, fd, a + b);
    assert(s.clients[fd] + a + b =~= s.clients[fd] + (a + b));
    assert(two.clients =~= one.clients);
}

/// Serving one client leaves the input of every other as it is.
pub proof fn law_clients_do_not_disturb_each_other(
    pre: ServerView,
    fd: i32,
    post: ServerView,
    service: ServiceView,
    other: i32,
)
    requires
        server::serves(pre, fd, post, service),
        other != fd,
    ensures
        post.clients.contains_key(other) == pre.clients.contains_key(other),
        pre.clients.contains_key(other) ==> post.clients[other] == pre.clients[other],
{
}

/// What one client has set, every client gets.
pub proof fn law_clients_share_one_store(
    pre: ServerView,
    writer: i32,
    key: Seq<char>,
    value: Seq<char>,
    set: ServerView,
    set_service: ServiceView,
    mid: ServerView,
    reader: i32,
    post: ServerView,
    service: ServiceView,
)
    requires
        pre.clients.contains_key(writer),
        server::take_request(pre.clients[writer]).0 matches Some(line) && command::parsed(line)
            == Ok::<_, Seq<char>>(CommandView::SetKey { key, value }),
        server::serves(pre, writer, set, set_service),
        mid.store.data == set.store.data,
        mid.clients.contains_key(reader),
        server::take_request(mid.clients[reader]).0 matches Some(line) && command::parsed(line)
            == Ok::<_, Seq<char>>(CommandView::Get { key }),
        server::serves(mid, reader, post, service),
    ensures
        service == (ServiceView::Send { text: reply::encoding(ReplyView::Value(value)) }),
{
    let cmd = CommandView::SetKey { key, value };
    let ask = CommandView::Get { key };
    let s1 = choose|step: StepView| #[trigger]
        store::executes(pre.store, cmd, set.store, step) && set_service
            == server::service_of(step);
    let s2 = choose|step: StepView| #[trigger]
        store::executes(mid.store, ask, post.store, step) && service == server::service_of(step);
    behaviour::law_get_after_set(
        pre.store,
        key,
        value,
        set.store,
        s1,
        mid.store,
        post.store,
        s2,
    );
}

/// A request that is no command is answered with an error, and changes nothing.
pub proof fn law_bad_requests_change_nothing(
    pre: StoreView,
    line: Seq<char>,
    post: StoreView,
    service: ServiceView,
)
    requires
        server::handles(pre, line, post, service),
        command::parsed(line) is Err,
    ensures
        post == pre,
        service matches ServiceView::Send { text } && text == "-ERR "@ + command::parsed(
            line,
        )->Err_0 + "\r\n"@,
{
}

/// Every request that a settled store handles begins in step with the disk, so
/// that what the client is told to be done is not lost. A snapshot that a client
/// asks for has to be able to hold the table.
pub proof fn law_requests_begin_in_step(
    d: Disk,
    pre: StoreView,
    line: Seq<char>,
    post: StoreView,
    service: ServiceView,
) -> (step: StepView)
    requires
        durability::settled(d, pre),
        !line.contains('\n'),
        server::handles(pre, line, post, service),
        command::parsed(line) is Ok,
        command::parsed(line) == Ok::<_, Seq<char>>(CommandView::Save) ==> recovery::all_storable(
            pre.data,
        ),
    ensures
        service == server::service_of(step),
        durability::in_step(d, pre.data, post, step),
{
    let cmd = command::parsed(line)->Ok_0;
    durability::law_parsed_commands_are_storable(line);
    let step = choose|step: StepView| #[trigger]
        store::executes(pre, cmd, post, step) && service == server::service_of(step);
    durability::law_command_begins_in_step(d, pre, cmd, post, step);
    step
}

} // verus!
