//! What the log and the snapshot give back.

use vstd::prelude::*;
use vstd::utf8::*;
use crate::journal;
use crate::journal::RecordView;
use crate::lines;
use crate::lines::NEWLINE;
use crate::table;
use crate::text;
use crate::text::Separator;

verus! {

pub(crate) proof fn lemma_terminated(b: Seq<u8>)
    requires
        lines::terminated(b),
    ensures
        lines::byte_lines(b) == lines::whole_lines(b).push(Seq::empty()),
        b.len() == 0 ==> lines::whole_lines(b) == Seq::<Seq<u8>>::empty(),
{
    lemma_lines_of_nothing();
    if b.len() > 0 {
        let a = b.drop_last();
        assert(b =~= a + seq![NEWLINE] + Seq::empty());
        lines::lemma_byte_lines_joined(a, Seq::empty());
        assert(lines::byte_lines(b).last() == Seq::<u8>::empty());
    } else {
        assert(b =~= Seq::empty());
    }
    assert(lines::byte_lines(b) =~= lines::whole_lines(b).push(Seq::empty()));
}

proof fn lemma_lines_of_nothing()
    ensures
        lines::byte_lines(Seq::empty()) == seq![Seq::<u8>::empty()],
{
    let nothing: Seq<u8> = Seq::empty();
    lines::lemma_first_newline_at(nothing, 0);
}

/// Bytes without a line end are one unfinished line.
pub(crate) proof fn lemma_lines_of_unfinished(b: Seq<u8>)
    requires
        !b.contains(NEWLINE),
    ensures
        lines::byte_lines(b) == seq![b],
        lines::whole_lines(b) == Seq::<Seq<u8>>::empty(),
{
    assert forall|j: int| 0 <= j < b.len() implies b[j] != NEWLINE by {
        assert(b.contains(b[j]));
    }
    lines::lemma_first_newline_at(b, b.len() as int);
    assert(lines::byte_lines(b) =~= seq![b]);
    assert(lines::whole_lines(b) =~= Seq::empty());
}

/// Bytes after whole lines make lines of their own.
pub(crate) proof fn lemma_lines_appended(a: Seq<u8>, b: Seq<u8>)
    requires
        lines::terminated(a),
    ensures
        lines::byte_lines(a + b) == lines::whole_lines(a) + lines::byte_lines(b),
        lines::whole_lines(a + b) == lines::whole_lines(a) + lines::whole_lines(b),
{
    lemma_terminated(a);
    lines::lemma_byte_lines(b);
    if a.len() == 0 {
        assert(a + b =~= b);
        assert(lines::whole_lines(a) + lines::byte_lines(b) =~= lines::byte_lines(b));
    } else {
        let body = a.drop_last();
        assert(a + b =~= body + seq![NEWLINE] + b);
        assert(a =~= body + seq![NEWLINE] + Seq::empty());
        lines::lemma_byte_lines_joined(body, b);
        lines::lemma_byte_lines_joined(body, Seq::empty());
        lemma_lines_of_nothing();
        assert(lines::whole_lines(a) =~= lines::byte_lines(body));
    }
    assert(lines::whole_lines(a + b) =~= lines::whole_lines(a) + lines::whole_lines(b));
}

/// A line and its end after whole lines are one more whole line.
pub(crate) proof fn lemma_line_appended(a: Seq<u8>, line: Seq<u8>)
    requires
        lines::terminated(a),
        !line.contains(NEWLINE),
    ensures
        lines::terminated(a + line + seq![NEWLINE]),
        lines::whole_lines(a + line + seq![NEWLINE]) == lines::whole_lines(a).push(line),
{
    let tail = line + seq![NEWLINE];
    assert(a + line + seq![NEWLINE] =~= a + tail);
    lemma_lines_appended(a, tail);
    assert(tail =~= line + seq![NEWLINE] + Seq::empty());
    lines::lemma_byte_lines_joined(line, Seq::empty());
    lemma_lines_of_nothing();
    lemma_lines_of_unfinished(line);
    assert(lines::whole_lines(tail) =~= seq![line]);
    assert(lines::whole_lines(a + tail) =~= lines::whole_lines(a).push(line));
}

pub(crate) proof fn lemma_blank_record()
    ensures
        journal::byte_record(Seq::empty()) is Blank,
        valid_utf8(Seq::<u8>::empty()),
        decode_utf8(Seq::<u8>::empty()) == Seq::<char>::empty(),
{
}

proof fn lemma_replayed_whole(m: Map<Seq<char>, Seq<char>>, log: Seq<u8>)
    requires
        lines::terminated(log),
    ensures
        journal::replayed(m, log) == journal::replayed_lines(m, lines::whole_lines(log)),
{
    lemma_terminated(log);
    lemma_blank_record();
    assert(lines::whole_lines(log).push(Seq::empty()).drop_last() =~= lines::whole_lines(log));
}

proof fn lemma_replayed_lines_joined(
    m: Map<Seq<char>, Seq<char>>,
    a: Seq<Seq<u8>>,
    b: Seq<Seq<u8>>,
)
    ensures
        journal::replayed_lines(m, a + b) == journal::replayed_lines(
            journal::replayed_lines(m, a),
            b,
        ),
    decreases b.len(),
{
    if b.len() == 0 {
        assert(a + b =~= a);
    } else {
        assert((a + b).drop_last() =~= a + b.drop_last());
        lemma_replayed_lines_joined(m, a, b.drop_last());
    }
}

/// A log can be replayed in parts: whole lines first, then the rest on top.
pub proof fn law_replay_in_parts(m: Map<Seq<char>, Seq<char>>, a: Seq<u8>, b: Seq<u8>)
    requires
        lines::terminated(a),
    ensures
        journal::replayed(m, a + b) == journal::replayed(journal::replayed(m, a), b),
{
    lemma_lines_appended(a, b);
    lemma_replayed_whole(m, a);
    lemma_replayed_lines_joined(m, lines::whole_lines(a), lines::byte_lines(b));
}

/// A line that is no log entry is skipped: the lines before it and after it are
/// replayed as if it were not there.
pub proof fn law_corrupt_line_is_skipped(
    m: Map<Seq<char>, Seq<char>>,
    before: Seq<u8>,
    junk: Seq<u8>,
    after: Seq<u8>,
)
    requires
        lines::terminated(before),
        !junk.contains(NEWLINE),
        journal::byte_record(junk) is Unknown,
    ensures
        journal::replayed(m, before + junk + seq![NEWLINE] + after) == journal::replayed(
            m,
            before + after,
        ),
{
    let head = before + junk + seq![NEWLINE];
    lemma_line_appended(before, junk);
    law_replay_in_parts(m, head, after);
    law_replay_in_parts(m, before, after);
    lemma_replayed_whole(m, head);
    lemma_replayed_whole(m, before);
    assert(lines::whole_lines(before).push(junk).drop_last() =~= lines::whole_lines(before));
}

/// A last line counts without its line end: it is applied, or skipped where it is no
/// log entry.
pub proof fn law_last_line_needs_no_end(
    m: Map<Seq<char>, Seq<char>>,
    before: Seq<u8>,
    last: Seq<u8>,
)
    requires
        lines::terminated(before),
        !last.contains(NEWLINE),
    ensures
        lines::unfinished(before + last) == last,
        journal::replayed(m, before + last) == journal::applied(
            journal::replayed(m, before),
            journal::byte_record(last),
        ),
{
    lemma_lines_appended(before, last);
    lemma_lines_of_unfinished(last);
    law_replay_in_parts(m, before, last);
    lemma_replayed_unfinished(journal::replayed(m, before), last);
}

proof fn lemma_replayed_unfinished(m: Map<Seq<char>, Seq<char>>, last: Seq<u8>)
    requires
        !last.contains(NEWLINE),
    ensures
        journal::replayed(m, last) == journal::applied(m, journal::byte_record(last)),
{
    lemma_lines_of_unfinished(last);
    let rows = seq![last];
    assert(rows.drop_last() =~= Seq::empty());
    assert(journal::replayed_lines(m, rows.drop_last()) == m);
}

/// An empty log changes nothing.
pub proof fn law_empty_log_changes_nothing(m: Map<Seq<char>, Seq<char>>)
    ensures
        journal::replayed(m, Seq::empty()) == m,
{
    let nothing: Seq<u8> = Seq::empty();
    lemma_replayed_whole(m, nothing);
    lemma_terminated(nothing);
}

/// Any log, one that ends in the middle of a line too, can be extended after a line
/// end: the log counts as before, and the rest is replayed on top.
pub proof fn law_closed_log_can_be_extended(
    m: Map<Seq<char>, Seq<char>>,
    log: Seq<u8>,
    rest: Seq<u8>,
)
    ensures
        lines::unfinished(log + (seq![NEWLINE] + rest)) == lines::unfinished(rest),
        journal::replayed(m, log + (seq![NEWLINE] + rest)) == journal::replayed(
            journal::replayed(m, log),
            rest,
        ),
{
    assert(log + (seq![NEWLINE] + rest) =~= log + seq![NEWLINE] + rest);
    lines::lemma_byte_lines_joined(log, rest);
    lines::lemma_byte_lines(rest);
    lemma_replayed_lines_joined(m, lines::byte_lines(log), lines::byte_lines(rest));
}

/// What the lines of a log do to one key: `None` where they leave it alone,
/// otherwise what the last of them makes of it.
spec fn effect(log: Seq<Seq<u8>>, k: Seq<char>) -> Option<Option<Seq<char>>>
    decreases log.len(),
{
    if log.len() == 0 {
        None
    } else {
        match journal::byte_record(log.last()) {
            RecordView::SetKey { key, value } if key == k => Some(Some(value)),
            RecordView::Del { key } if key == k => Some(None),
            RecordView::Flush => Some(None),
            _ => effect(log.drop_last(), k),
        }
    }
}

spec fn lookup(m: Map<Seq<char>, Seq<char>>, k: Seq<char>) -> Option<Seq<char>> {
    if m.contains_key(k) {
        Some(m[k])
    } else {
        None
    }
}

proof fn lemma_effect(m: Map<Seq<char>, Seq<char>>, log: Seq<Seq<u8>>, k: Seq<char>)
    ensures
        lookup(journal::replayed_lines(m, log), k) == match effect(log, k) {
            Some(after) => after,
            None => lookup(m, k),
        },
    decreases log.len(),
{
    if log.len() > 0 {
        lemma_effect(m, log.drop_last(), k);
    }
}

/// Replaying a log a second time changes nothing. So a log that a crash left
/// untruncated beside a newer snapshot does no harm.
pub proof fn law_replay_is_idempotent(m: Map<Seq<char>, Seq<char>>, log: Seq<u8>)
    ensures
        journal::replayed(journal::replayed(m, log), log) == journal::replayed(m, log),
{
    let rows = lines::byte_lines(log);
    let once = journal::replayed_lines(m, rows);
    let twice = journal::replayed_lines(once, rows);
    assert forall|k: Seq<char>| #[trigger] lookup(twice, k) == lookup(once, k) by {
        lemma_effect(m, rows, k);
        lemma_effect(once, rows, k);
    }
    assert forall|k: Seq<char>| twice.contains_key(k) <==> once.contains_key(k) by {
        assert(lookup(twice, k) == lookup(once, k));
    }
    assert forall|k: Seq<char>| once.contains_key(k) implies twice[k] == once[k] by {
        assert(lookup(twice, k) == lookup(once, k));
    }
    assert(twice =~= once);
}

/// Whether the log can hold `key` with `value`.
pub open spec fn loggable(key: Seq<char>, value: Seq<char>) -> bool {
    &&& !key.contains(' ')
    &&& !key.contains('\n')
    &&& value.len() > 0
    &&& !text::is_white_space(value.last())
    &&& !value.contains('\n')
}

/// Whether the key does not begin with white space.
pub open spec fn begins_plainly(key: Seq<char>) -> bool {
    key.len() > 0 ==> !text::is_white_space(key[0])
}

/// Whether the log and a snapshot can hold `key` with `value`.
pub open spec fn storable(key: Seq<char>, value: Seq<char>) -> bool {
    &&& loggable(key, value)
    &&& begins_plainly(key)
}

/// Whether the log can hold that `key` was deleted.
pub open spec fn deletable(key: Seq<char>) -> bool {
    &&& !key.contains(' ')
    &&& !key.contains('\n')
    &&& key.len() > 0 ==> !text::is_white_space(key.last())
}

/// Whether the log can hold every key of the table with its value.
pub open spec fn all_loggable(m: Map<Seq<char>, Seq<char>>) -> bool {
    forall|k: Seq<char>| #[trigger] m.contains_key(k) ==> loggable(k, m[k])
}

/// Whether every key of the table is storable with its value.
pub open spec fn all_storable(m: Map<Seq<char>, Seq<char>>) -> bool {
    forall|k: Seq<char>| #[trigger] m.contains_key(k) ==> storable(k, m[k])
}

proof fn lemma_not_split(s: Seq<char>)
    requires
        !s.contains(' '),
    ensures
        forall|j: int| 0 <= j < s.len() ==> !Separator::Space.splits(s[j]),
{
    assert forall|j: int| 0 <= j < s.len() implies !Separator::Space.splits(s[j]) by {
        assert(s.contains(s[j]));
    }
}

proof fn lemma_verbs()
    ensures
        "SET"@ == seq!['S', 'E', 'T'],
        "DEL"@ == seq!['D', 'E', 'L'],
        "FLUSHDB"@ == seq!['F', 'L', 'U', 'S', 'H', 'D', 'B'],
        text::uppercase("SET"@) == "SET"@,
        text::uppercase("DEL"@) == "DEL"@,
        text::uppercase("FLUSHDB"@) == "FLUSHDB"@,
{
    reveal_strlit("SET");
    reveal_strlit("DEL");
    reveal_strlit("FLUSHDB");
    assert("SET"@ =~= seq!['S', 'E', 'T']);
    assert("DEL"@ =~= seq!['D', 'E', 'L']);
    assert("FLUSHDB"@ =~= seq!['F', 'L', 'U', 'S', 'H', 'D', 'B']);
    text::lemma_uppercase_of_ascii("SET"@);
    text::lemma_uppercase_of_ascii("DEL"@);
    text::lemma_uppercase_of_ascii("FLUSHDB"@);
    assert(text::uppercase("SET"@) =~= "SET"@);
    assert(text::uppercase("DEL"@) =~= "DEL"@);
    assert(text::uppercase("FLUSHDB"@) =~= "FLUSHDB"@);
}

proof fn lemma_set_record(key: Seq<char>, value: Seq<char>)
    requires
        loggable(key, value),
    ensures
        journal::record("SET"@ + seq![' '] + key + seq![' '] + value) == (RecordView::SetKey {
            key,
            value,
        }),
{
    let sep = Separator::Space;
    let rest = key + seq![' '] + value;
    let line = "SET"@ + seq![' '] + rest;
    lemma_verbs();
    assert("SET"@ + seq![' '] + key + seq![' '] + value =~= line);
    text::lemma_trimmed_fixed(line);
    lemma_not_split("SET"@);
    lemma_not_split(key);
    text::lemma_pieces_of_joined("SET"@, ' ', rest, 3, sep);
    text::lemma_pieces_of_joined(key, ' ', value, 2, sep);
    let parts = text::pieces(line, 3, sep);
    assert(text::pieces(value, 1, sep) =~= seq![value]);
    assert(parts =~= seq!["SET"@, key, value]);
}

proof fn lemma_del_record(key: Seq<char>)
    requires
        deletable(key),
    ensures
        journal::record("DEL"@ + seq![' '] + key) == (RecordView::Del { key }),
{
    let sep = Separator::Space;
    let line = "DEL"@ + seq![' '] + key;
    lemma_verbs();
    lemma_not_split("DEL"@);
    assert("DEL"@[0] != "SET"@[0]);
    if key.len() == 0 {
        reveal_strlit(" ");
        text::lemma_trimmed_at(line, 0, 3);
        assert(text::trimmed(line) =~= "DEL"@);
        text::lemma_pieces_of_unsplit("DEL"@, 3, sep);
        assert(line =~= "DEL"@ + " "@);
        assert(key =~= Seq::empty());
    } else {
        text::lemma_trimmed_fixed(line);
        lemma_not_split(key);
        text::lemma_pieces_of_joined("DEL"@, ' ', key, 3, sep);
        text::lemma_pieces_of_unsplit(key, 2, sep);
        let parts = text::pieces(line, 3, sep);
        assert(parts =~= seq!["DEL"@, key]);
    }
}

proof fn lemma_flush_record()
    ensures
        journal::record("FLUSHDB"@) is Flush,
{
    lemma_verbs();
    text::lemma_trimmed_fixed("FLUSHDB"@);
    lemma_not_split("FLUSHDB"@);
    text::lemma_pieces_of_unsplit("FLUSHDB"@, 3, Separator::Space);
    assert("FLUSHDB"@[0] != "SET"@[0]);
    assert("FLUSHDB"@[0] != "DEL"@[0]);
}

/// A log of one line.
proof fn lemma_replayed_line(m: Map<Seq<char>, Seq<char>>, line: Seq<char>)
    requires
        !line.contains('\n'),
    ensures
        encode_utf8(line + seq!['\n']) == encode_utf8(line) + seq![NEWLINE],
        !encode_utf8(line).contains(NEWLINE),
        journal::replayed(m, encode_utf8(line + seq!['\n'])) == journal::applied(
            m,
            journal::record(line),
        ),
{
    let nothing: Seq<u8> = Seq::empty();
    let bytes = encode_utf8(line);
    lines::lemma_encode_joined(line, seq!['\n']);
    lines::lemma_encode_newline();
    lines::lemma_encode_without_newline(line);
    assert(nothing + bytes + seq![NEWLINE] =~= bytes + seq![NEWLINE]);
    lemma_line_appended(nothing, bytes);
    lemma_replayed_whole(m, bytes + seq![NEWLINE]);
    lemma_terminated(nothing);
    assert(journal::replayed_lines(m, lines::whole_lines(nothing)) == m);
    assert(lines::whole_lines(nothing).push(bytes).drop_last() =~= lines::whole_lines(nothing));
    encode_utf8_valid_utf8(line);
    encode_utf8_decode_utf8(line);
}

/// One more line of text at the end of a log takes effect after all that stood
/// there before.
pub(crate) proof fn lemma_replayed_with_line(
    m: Map<Seq<char>, Seq<char>>,
    log: Seq<u8>,
    torn: bool,
    line: Seq<char>,
)
    requires
        torn || lines::terminated(log),
        !line.contains('\n'),
    ensures
        lines::terminated(log + journal::logged(torn, line + seq!['\n'])),
        journal::replayed(m, log + journal::logged(torn, line + seq!['\n'])) == journal::applied(
            journal::replayed(m, log),
            journal::record(line),
        ),
{
    let bytes = encode_utf8(line + seq!['\n']);
    lemma_replayed_line(journal::replayed(m, log), line);
    lemma_logged(torn, line + seq!['\n']);
    if torn {
        law_closed_log_can_be_extended(m, log, bytes);
    } else {
        law_replay_in_parts(m, log, bytes);
    }
}

proof fn lemma_logged(torn: bool, line: Seq<char>)
    ensures
        journal::logged(torn, line) == if torn {
            seq![NEWLINE] + encode_utf8(line)
        } else {
            encode_utf8(line)
        },
{
    reveal_strlit("\n");
    assert("\n"@ =~= seq!['\n']);
    lines::lemma_encode_joined(seq!['\n'], line);
    lines::lemma_encode_newline();
}

/// A crash in the middle of appending a line, after `n` of its bytes: the log counts
/// as before, and what there is of the line counts as a line. Where that is no log
/// entry it changes nothing.
pub proof fn law_torn_append_counts_as_a_line(
    m: Map<Seq<char>, Seq<char>>,
    log: Seq<u8>,
    torn: bool,
    line: Seq<char>,
    n: int,
)
    requires
        torn || lines::terminated(log),
        !line.contains('\n'),
        0 <= n < journal::logged(torn, line + seq!['\n']).len(),
    ensures
        ({
            let cut = journal::logged(torn, line + seq!['\n']).take(n);
            let done = if torn {
                n - 1
            } else {
                n
            };
            if done < 0 {
                journal::replayed(m, log + cut) == journal::replayed(m, log)
            } else {
                &&& done <= encode_utf8(line).len()
                &&& lines::unfinished(log + cut) == encode_utf8(line).take(done)
                &&& journal::replayed(m, log + cut) == journal::applied(
                    journal::replayed(m, log),
                    journal::byte_record(encode_utf8(line).take(done)),
                )
            }
        }),
{
    let whole = journal::logged(torn, line + seq!['\n']);
    let cut = whole.take(n);
    let bytes = encode_utf8(line);
    let done = if torn {
        n - 1
    } else {
        n
    };
    lemma_logged(torn, line + seq!['\n']);
    lemma_replayed_line(m, line);
    if done < 0 {
        assert(log + cut =~= log);
    } else {
        let last = bytes.take(done);
        if last.contains(NEWLINE) {
            let j = last.index_of(NEWLINE);
            assert(bytes[j] == NEWLINE);
        }
        if torn {
            assert(cut =~= seq![NEWLINE] + last);
            law_closed_log_can_be_extended(m, log, last);
            lemma_lines_of_unfinished(last);
            lemma_replayed_unfinished(journal::replayed(m, log), last);
        } else {
            assert(cut =~= last);
            law_last_line_needs_no_end(m, log, last);
        }
    }
}

/// Where the encoding of text is cut off between two characters, what is left
/// encodes the beginning of the text.
proof fn lemma_valid_prefix(s: Seq<char>, n: int) -> (t: Seq<char>)
    requires
        0 <= n <= encode_utf8(s).len(),
        valid_utf8(encode_utf8(s).take(n)),
    ensures
        decode_utf8(encode_utf8(s).take(n)) == t,
        t.len() <= s.len(),
        t == s.take(t.len() as int),
{
    let whole = encode_utf8(s);
    let head = whole.take(n);
    let tail = whole.skip(n);
    encode_utf8_valid_utf8(s);
    assert(whole.subrange(0, n) =~= head);
    assert(whole.subrange(n, whole.len() as int) =~= tail);
    if !valid_utf8(tail) {
        partial_valid_partial_invalid_utf8(whole, n);
    }
    let t = decode_utf8(head);
    let u = decode_utf8(tail);
    decode_utf8_encode_utf8(head);
    decode_utf8_encode_utf8(tail);
    lines::lemma_encode_joined(t, u);
    assert(head + tail =~= whole);
    encode_utf8_decode_utf8(s);
    encode_utf8_decode_utf8(t + u);
    assert(t =~= s.take(t.len() as int));
    t
}

/// The beginning of a line that begins with an ASCII capital: what its words are.
proof fn lemma_torn_words(verb: Seq<char>, rest: Seq<char>, t: Seq<char>)
    requires
        verb.len() == 3,
        is_ascii_chars(verb),
        text::uppercase(verb) == verb,
        forall|j: int| 0 <= j < verb.len() ==> !text::is_white_space(verb[j]),
        t.len() <= 4 + rest.len(),
        t == (verb + seq![' '] + rest).take(t.len() as int),
    ensures
        ({
            let body = text::trimmed(t);
            let parts = text::pieces(body, 3, Separator::Space);
            &&& body.len() <= 4 + rest.len()
            &&& body.len() != 4
            &&& 0 < body.len() < 4 ==> {
                &&& parts == seq![body]
                &&& text::uppercase(body) == verb.take(body.len() as int)
            }
            &&& body.len() > 4 ==> {
                let cut = rest.take(body.len() - 4);
                parts == seq![verb] + text::pieces(cut, 2, Separator::Space)
            }
        }),
{
    let sep = Separator::Space;
    let line = verb + seq![' '] + rest;
    let body = text::trimmed(t);
    if t.len() > 0 {
        assert(t[0] == verb[0]);
        let b = text::lemma_trimmed_end_bound(t);
        text::lemma_trimmed_at(t, 0, b);
        assert(body =~= line.take(b));
        assert(b != 4) by {
            if b == 4 {
                assert(t[3] == ' ');
            }
        }
        if b <= 3 {
            assert(body =~= verb.take(b));
            assert forall|j: int| 0 <= j < body.len() implies !sep.splits(body[j]) by {
                assert(body[j] == verb[j]);
                assert(!text::is_white_space(verb[j]));
            }
            text::lemma_pieces_of_unsplit(body, 3, sep);
            text::lemma_uppercase_of_ascii(verb);
            text::lemma_uppercase_of_ascii(body);
            assert(text::uppercase(body) =~= verb.take(b)) by {
                assert forall|j: int| 0 <= j < b implies text::uppercase(body)[j] == verb[j] by {
                    assert(text::uppercase(verb)[j] == text::ascii_upper(verb[j]));
                }
            }
        } else {
            let cut = rest.take(b - 4);
            assert(body =~= verb + seq![' '] + cut);
            assert forall|j: int| 0 <= j < verb.len() implies !sep.splits(verb[j]) by {
                assert(!text::is_white_space(verb[j]));
            }
            text::lemma_pieces_of_joined(verb, ' ', cut, 3, sep);
        }
    }
}

/// The beginning of a `SET` line says nothing, or sets the same key.
proof fn lemma_torn_set_record(key: Seq<char>, value: Seq<char>, t: Seq<char>)
    requires
        loggable(key, value),
        t.len() <= 5 + key.len() + value.len(),
        t == ("SET"@ + seq![' '] + key + seq![' '] + value).take(t.len() as int),
    ensures
        match journal::record(t) {
            RecordView::Blank => true,
            RecordView::Unknown => true,
            RecordView::SetKey { key: k, value: _ } => k == key,
            _ => false,
        },
{
    let sep = Separator::Space;
    let rest = key + seq![' '] + value;
    let body = text::trimmed(t);
    lemma_verbs();
    assert("SET"@ + seq![' '] + key + seq![' '] + value =~= "SET"@ + seq![' '] + rest);
    lemma_torn_words("SET"@, rest, t);
    if body.len() > 4 {
        let cut = rest.take(body.len() - 4);
        lemma_not_split(key);
        if cut.len() <= key.len() {
            assert forall|j: int| 0 <= j < cut.len() implies !sep.splits(cut[j]) by {
                assert(cut[j] == key[j]);
            }
            text::lemma_pieces_of_unsplit(cut, 2, sep);
        } else {
            let late = cut.skip(key.len() as int + 1);
            assert(cut =~= key + seq![' '] + late);
            text::lemma_pieces_of_joined(key, ' ', late, 2, sep);
        }
    } else if body.len() > 0 {
        lemma_cut_verb("SET"@, body.len() as int);
    }
}

/// The beginning of a verb is a verb only if it is all of it.
proof fn lemma_cut_verb(verb: Seq<char>, n: int)
    requires
        verb == "SET"@ || verb == "DEL"@ || verb == "FLUSHDB"@,
        0 <= n <= verb.len(),
    ensures
        n < verb.len() ==> verb.take(n) != "SET"@ && verb.take(n) != "DEL"@ && verb.take(n)
            != "FLUSHDB"@,
        "SET"@ != "DEL"@,
        "SET"@ != "FLUSHDB"@,
        "DEL"@ != "FLUSHDB"@,
{
    lemma_verbs();
    assert("SET"@[0] != "DEL"@[0]);
    assert("SET"@[0] != "FLUSHDB"@[0]);
    assert("DEL"@[0] != "FLUSHDB"@[0]);
    if 0 < n < verb.len() {
        assert(verb.take(n)[0] == verb[0]);
        assert(verb.take(n).len() == n);
    }
}

/// The beginning of a `DEL` line says nothing, or deletes a key that is a beginning
/// of the key.
proof fn lemma_torn_del_record(key: Seq<char>, t: Seq<char>)
    requires
        deletable(key),
        t.len() <= 4 + key.len(),
        t == ("DEL"@ + seq![' '] + key).take(t.len() as int),
    ensures
        match journal::record(t) {
            RecordView::Blank => true,
            RecordView::Unknown => true,
            RecordView::Del { key: k } => k.is_prefix_of(key),
            _ => false,
        },
{
    let body = text::trimmed(t);
    lemma_verbs();
    lemma_torn_words("DEL"@, key, t);
    lemma_cut_verb("DEL"@, 3);
    if body.len() > 4 {
        let cut = key.take(body.len() - 4);
        assert forall|j: int| 0 <= j < cut.len() implies !Separator::Space.splits(cut[j]) by {
            assert(key.contains(key[j]));
        }
        text::lemma_pieces_of_unsplit(cut, 2, Separator::Space);
    } else if body.len() > 0 {
        lemma_cut_verb("DEL"@, body.len() as int);
    }
}

/// The beginning of a `FLUSHDB` line says nothing, unless it is all of it.
proof fn lemma_torn_flush_record(t: Seq<char>)
    requires
        t.len() <= 7,
        t == "FLUSHDB"@.take(t.len() as int),
    ensures
        match journal::record(t) {
            RecordView::Blank => true,
            RecordView::Unknown => true,
            RecordView::Flush => true,
            _ => false,
        },
{
    lemma_verbs();
    lemma_cut_verb("FLUSHDB"@, t.len() as int);
    if t.len() > 0 {
        assert(t[0] == "FLUSHDB"@[0]);
        assert(t.last() == "FLUSHDB"@[t.len() - 1]);
        text::lemma_trimmed_fixed(t);
        assert forall|j: int| 0 <= j < t.len() implies !Separator::Space.splits(t[j]) by {
            assert(t[j] == "FLUSHDB"@[j]);
        }
        text::lemma_pieces_of_unsplit(t, 3, Separator::Space);
        text::lemma_uppercase_of_ascii(t);
        assert(text::uppercase(t) =~= t);
        assert(t.take(t.len() as int) =~= t);
        reveal_strlit(" ");
    }
}

/// A crash in the middle of logging a set key, after any number of bytes, does not
/// touch any other key.
pub proof fn law_torn_set_touches_no_other_key(
    m: Map<Seq<char>, Seq<char>>,
    log: Seq<u8>,
    torn: bool,
    key: Seq<char>,
    value: Seq<char>,
    n: int,
    other: Seq<char>,
)
    requires
        torn || lines::terminated(log),
        loggable(key, value),
        0 <= n <= journal::logged(torn, journal::set_line(key, value)).len(),
        other != key,
    ensures
        ({
            let cut = journal::logged(torn, journal::set_line(key, value)).take(n);
            let before = journal::replayed(m, log);
            let after = journal::replayed(m, log + cut);
            &&& after.contains_key(other) == before.contains_key(other)
            &&& before.contains_key(other) ==> after[other] == before[other]
        }),
{
    let whole = journal::logged(torn, journal::set_line(key, value));
    let line = lemma_set_line(key, value);
    if n == whole.len() {
        assert(whole.take(n) =~= whole);
        law_logged_set_is_replayed(m, log, torn, key, value);
    } else {
        law_torn_append_counts_as_a_line(m, log, torn, line, n);
        let done = if torn {
            n - 1
        } else {
            n
        };
        if done >= 0 && valid_utf8(encode_utf8(line).take(done)) {
            let t = lemma_valid_prefix(line, done);
            lemma_verbs();
            lemma_torn_set_record(key, value, t);
        }
    }
}

/// A crash in the middle of logging a deleted key, after any number of bytes, touches
/// no key but those that the key begins with.
pub proof fn law_torn_del_touches_only_beginnings(
    m: Map<Seq<char>, Seq<char>>,
    log: Seq<u8>,
    torn: bool,
    key: Seq<char>,
    n: int,
    other: Seq<char>,
)
    requires
        torn || lines::terminated(log),
        deletable(key),
        0 <= n <= journal::logged(torn, journal::del_line(key)).len(),
        !other.is_prefix_of(key),
    ensures
        ({
            let cut = journal::logged(torn, journal::del_line(key)).take(n);
            let before = journal::replayed(m, log);
            let after = journal::replayed(m, log + cut);
            &&& after.contains_key(other) == before.contains_key(other)
            &&& before.contains_key(other) ==> after[other] == before[other]
        }),
{
    let whole = journal::logged(torn, journal::del_line(key));
    let line = lemma_del_line(key);
    if n == whole.len() {
        assert(whole.take(n) =~= whole);
        law_logged_del_is_replayed(m, log, torn, key);
        assert(key =~= key.subrange(0, key.len() as int));
        assert(other != key);
    } else {
        law_torn_append_counts_as_a_line(m, log, torn, line, n);
        let done = if torn {
            n - 1
        } else {
            n
        };
        if done >= 0 && valid_utf8(encode_utf8(line).take(done)) {
            let t = lemma_valid_prefix(line, done);
            lemma_verbs();
            lemma_torn_del_record(key, t);
        }
    }
}

/// A crash in the middle of logging an emptied table, after any number of bytes,
/// leaves the table as it was, or empty.
pub proof fn law_torn_flush_is_done_or_not(
    m: Map<Seq<char>, Seq<char>>,
    log: Seq<u8>,
    torn: bool,
    n: int,
)
    requires
        torn || lines::terminated(log),
        0 <= n <= journal::logged(torn, journal::flush_line()).len(),
    ensures
        ({
            let cut = journal::logged(torn, journal::flush_line()).take(n);
            let after = journal::replayed(m, log + cut);
            after == journal::replayed(m, log) || after == Map::<Seq<char>, Seq<char>>::empty()
        }),
{
    let whole = journal::logged(torn, journal::flush_line());
    let line = lemma_flush_line();
    if n == whole.len() {
        assert(whole.take(n) =~= whole);
        law_logged_flush_is_replayed(m, log, torn);
    } else {
        law_torn_append_counts_as_a_line(m, log, torn, line, n);
        let done = if torn {
            n - 1
        } else {
            n
        };
        if done >= 0 && valid_utf8(encode_utf8(line).take(done)) {
            let t = lemma_valid_prefix(line, done);
            lemma_verbs();
            lemma_torn_flush_record(t);
        }
    }
}

/// The log's line for a set key is a line of text and its end.
pub proof fn lemma_set_line(key: Seq<char>, value: Seq<char>) -> (line: Seq<char>)
    requires
        loggable(key, value),
    ensures
        line == "SET"@ + seq![' '] + key + seq![' '] + value,
        journal::set_line(key, value) == line + seq!['\n'],
        !line.contains('\n'),
{
    reveal_strlit("SET ");
    reveal_strlit(" ");
    reveal_strlit("\n");
    lemma_verbs();
    let line = "SET"@ + seq![' '] + key + seq![' '] + value;
    assert(journal::set_line(key, value) =~= line + seq!['\n']);
    assert(!line.contains('\n')) by {
        if line.contains('\n') {
            let i = line.index_of('\n');
            if 4 <= i < 4 + key.len() {
                assert(key[i - 4] == '\n');
            } else if i > 4 + key.len() {
                assert(value[i - 5 - key.len()] == '\n');
            }
        }
    }
    line
}

/// A set key that was appended to the log is set when the log is replayed.
pub proof fn law_logged_set_is_replayed(
    m: Map<Seq<char>, Seq<char>>,
    log: Seq<u8>,
    torn: bool,
    key: Seq<char>,
    value: Seq<char>,
)
    requires
        torn || lines::terminated(log),
        loggable(key, value),
    ensures
        lines::terminated(log + journal::logged(torn, journal::set_line(key, value))),
        journal::replayed(m, log + journal::logged(torn, journal::set_line(key, value)))
            == journal::replayed(m, log).insert(key, value),
{
    let line = lemma_set_line(key, value);
    lemma_set_record(key, value);
    lemma_replayed_with_line(m, log, torn, line);
}

/// The log's line for a deleted key is a line of text and its end.
pub proof fn lemma_del_line(key: Seq<char>) -> (line: Seq<char>)
    requires
        deletable(key),
    ensures
        line == "DEL"@ + seq![' '] + key,
        journal::del_line(key) == line + seq!['\n'],
        !line.contains('\n'),
{
    reveal_strlit("DEL ");
    reveal_strlit("\n");
    lemma_verbs();
    let line = "DEL"@ + seq![' '] + key;
    assert(journal::del_line(key) =~= line + seq!['\n']);
    assert(!line.contains('\n')) by {
        if line.contains('\n') {
            let i = line.index_of('\n');
            if 4 <= i {
                assert(key[i - 4] == '\n');
            }
        }
    }
    line
}

/// A deleted key that was appended to the log is deleted when the log is replayed.
pub proof fn law_logged_del_is_replayed(
    m: Map<Seq<char>, Seq<char>>,
    log: Seq<u8>,
    torn: bool,
    key: Seq<char>,
)
    requires
        torn || lines::terminated(log),
        deletable(key),
    ensures
        lines::terminated(log + journal::logged(torn, journal::del_line(key))),
        journal::replayed(m, log + journal::logged(torn, journal::del_line(key)))
            == journal::replayed(m, log).remove(key),
{
    let line = lemma_del_line(key);
    lemma_del_record(key);
    lemma_replayed_with_line(m, log, torn, line);
}

/// The log's line for an emptied table is a line of text and its end.
pub proof fn lemma_flush_line() -> (line: Seq<char>)
    ensures
        line == "FLUSHDB"@,
        journal::flush_line() == line + seq!['\n'],
        !line.contains('\n'),
{
    reveal_strlit("FLUSHDB\n");
    lemma_verbs();
    assert(journal::flush_line() =~= "FLUSHDB"@ + seq!['\n']);
    assert(!"FLUSHDB"@.contains('\n'));
    "FLUSHDB"@
}

/// An emptied table that was appended to the log is emptied when the log is
/// replayed.
pub proof fn law_logged_flush_is_replayed(
    m: Map<Seq<char>, Seq<char>>,
    log: Seq<u8>,
    torn: bool,
)
    requires
        torn || lines::terminated(log),
    ensures
        lines::terminated(log + journal::logged(torn, journal::flush_line())),
        journal::replayed(m, log + journal::logged(torn, journal::flush_line())) == Map::<
            Seq<char>,
            Seq<char>,
        >::empty(),
{
    let line = lemma_flush_line();
    lemma_flush_record();
    lemma_replayed_with_line(m, log, torn, line);
}

proof fn lemma_snapshot_entry(key: Seq<char>, value: Seq<char>)
    requires
        storable(key, value),
    ensures
        journal::snapshot_entry(key + seq![' '] + value) == Some((key, value)),
{
    let sep = Separator::Space;
    let line = key + seq![' '] + value;
    if key.len() > 0 {
        text::lemma_trimmed_fixed(line);
    }
    assert(journal::entry_body(line) == line);
    lemma_not_split(key);
    text::lemma_pieces_of_joined(key, ' ', value, 2, sep);
    assert(text::pieces(value, 1, sep) =~= seq![value]);
    assert(text::pieces(line, 2, sep) =~= seq![key, value]);
}

/// The lines of a snapshot, as text without line ends.
spec fn entry_rows(order: Seq<Seq<char>>, m: Map<Seq<char>, Seq<char>>) -> Seq<Seq<u8>> {
    Seq::new(order.len(), |i: int| encode_utf8(order[i] + seq![' '] + m[order[i]]))
}

/// Whether `key` with `value` fits on one line.
pub open spec fn fits_on_a_line(key: Seq<char>, value: Seq<char>) -> bool {
    !key.contains('\n') && !value.contains('\n')
}

proof fn lemma_snapshot_rows(order: Seq<Seq<char>>, m: Map<Seq<char>, Seq<char>>)
    requires
        forall|i: int| 0 <= i < order.len() ==> fits_on_a_line(#[trigger] order[i], m[order[i]]),
    ensures
        lines::terminated(encode_utf8(journal::snapshot_text(order, m))),
        lines::whole_lines(encode_utf8(journal::snapshot_text(order, m))) == entry_rows(order, m),
    decreases order.len(),
{
    let bytes = encode_utf8(journal::snapshot_text(order, m));
    if order.len() == 0 {
        assert(bytes =~= Seq::empty());
        lemma_terminated(bytes);
        assert(entry_rows(order, m) =~= Seq::empty());
    } else {
        reveal_strlit(" ");
        reveal_strlit("\n");
        let before = order.drop_last();
        let key = order.last();
        let value = m[key];
        assert(fits_on_a_line(order[order.len() - 1], m[order[order.len() - 1]]));
        assert forall|i: int| 0 <= i < before.len() implies fits_on_a_line(
            #[trigger] before[i],
            m[before[i]],
        ) by {
            assert(before[i] == order[i]);
        }
        lemma_snapshot_rows(before, m);
        let head = journal::snapshot_text(before, m);
        let line = key + seq![' '] + value;
        assert(journal::entry_line(key, value) =~= line + seq!['\n']);
        assert(!line.contains('\n')) by {
            if line.contains('\n') {
                let i = line.index_of('\n');
                if i < key.len() {
                    assert(key[i] == '\n');
                } else if i > key.len() {
                    assert(value[i - 1 - key.len()] == '\n');
                }
            }
        }
        lines::lemma_encode_joined(head, line + seq!['\n']);
        lines::lemma_encode_joined(line, seq!['\n']);
        lines::lemma_encode_newline();
        lines::lemma_encode_without_newline(line);
        assert(bytes =~= encode_utf8(head) + encode_utf8(line) + seq![NEWLINE]);
        lemma_line_appended(encode_utf8(head), encode_utf8(line));
        assert(entry_rows(order, m) =~= entry_rows(before, m).push(encode_utf8(line)));
    }
}

pub(crate) proof fn lemma_rows_readable(rows: Seq<Seq<u8>>)
    requires
        forall|i: int| 0 <= i < rows.len() ==> valid_utf8(#[trigger] rows[i]),
    ensures
        journal::readable(rows) == rows.len(),
    decreases rows.len(),
{
    if rows.len() > 0 {
        assert(valid_utf8(rows[0]));
        assert forall|i: int| 0 <= i < rows.skip(1).len() implies valid_utf8(
            #[trigger] rows.skip(1)[i],
        ) by {
            assert(rows.skip(1)[i] == rows[i + 1]);
        }
        lemma_rows_readable(rows.skip(1));
    }
}

proof fn lemma_rows_loaded(order: Seq<Seq<char>>, m: Map<Seq<char>, Seq<char>>)
    requires
        forall|i: int| 0 <= i < order.len() ==> storable(#[trigger] order[i], m[order[i]]),
    ensures
        journal::loaded_lines(Map::empty(), entry_rows(order, m)) == Map::new(
            |k: Seq<char>| order.contains(k),
            |k: Seq<char>| m[k],
        ),
    decreases order.len(),
{
    let rows = entry_rows(order, m);
    if order.len() == 0 {
        assert(rows =~= Seq::empty());
        assert(journal::loaded_lines(Map::empty(), rows) =~= Map::new(
            |k: Seq<char>| order.contains(k),
            |k: Seq<char>| m[k],
        ));
    } else {
        let before = order.drop_last();
        let key = order.last();
        let line = key + seq![' '] + m[key];
        assert(storable(order[order.len() - 1], m[order[order.len() - 1]]));
        assert forall|i: int| 0 <= i < before.len() implies storable(
            #[trigger] before[i],
            m[before[i]],
        ) by {
            assert(before[i] == order[i]);
        }
        lemma_rows_loaded(before, m);
        lemma_snapshot_entry(key, m[key]);
        encode_utf8_decode_utf8(line);
        assert(rows.drop_last() =~= entry_rows(before, m));
        let wanted = Map::new(|k: Seq<char>| order.contains(k), |k: Seq<char>| m[k]);
        let got = journal::loaded_lines(Map::empty(), rows);
        assert forall|k: Seq<char>| wanted.contains_key(k) <==> got.contains_key(k) by {
            if order.contains(k) {
                let i = order.index_of(k);
                if i < before.len() {
                    assert(before[i] == k);
                }
            }
            if before.contains(k) {
                let i = before.index_of(k);
                assert(order[i] == k);
            }
            assert(order[order.len() - 1] == key);
        }
        assert(got =~= wanted);
    }
}

/// A snapshot is every key once, with its value, in some order: the key, a space, the
/// value and a line feed, from `cuts[i]` to `cuts[i + 1]` for the `i`-th key.
pub proof fn law_snapshot_is_its_entries_in_a_row(
    bytes: Seq<u8>,
    m: Map<Seq<char>, Seq<char>>,
) -> (parts: (Seq<Seq<char>>, Seq<int>))
    requires
        journal::is_snapshot(bytes, m),
    ensures
        parts.0.no_duplicates(),
        forall|k: Seq<char>| #[trigger] parts.0.contains(k) <==> m.contains_key(k),
        parts.1.len() == parts.0.len() + 1,
        parts.1[0] == 0,
        parts.1.last() == bytes.len(),
        forall|i: int|
            0 <= i < parts.0.len() ==> 0 <= #[trigger] parts.1[i] < parts.1[i + 1] <= bytes.len()
                && bytes.subrange(parts.1[i], parts.1[i + 1]) == encode_utf8(
                parts.0[i] + seq![' '] + m[parts.0[i]] + seq!['\n'],
            ),
{
    let order = choose|order: Seq<Seq<char>>|
        #![trigger journal::snapshot_text(order, m)]
        table::lists(order, m.dom()) && bytes == encode_utf8(journal::snapshot_text(order, m));
    assert forall|k: Seq<char>| #[trigger] order.contains(k) <==> m.contains_key(k) by {
        assert(order.to_set().contains(k) <==> m.dom().contains(k));
    }
    let cuts = lemma_snapshot_cuts(order, m);
    (order, cuts)
}

proof fn lemma_snapshot_cuts(
    order: Seq<Seq<char>>,
    m: Map<Seq<char>, Seq<char>>,
) -> (cuts: Seq<int>)
    ensures
        ({
            let bytes = encode_utf8(journal::snapshot_text(order, m));
            &&& cuts.len() == order.len() + 1
            &&& cuts[0] == 0
            &&& cuts.last() == bytes.len()
            &&& forall|i: int|
                0 <= i < order.len() ==> 0 <= #[trigger] cuts[i] < cuts[i + 1] <= bytes.len()
                    && bytes.subrange(cuts[i], cuts[i + 1]) == encode_utf8(
                    order[i] + seq![' '] + m[order[i]] + seq!['\n'],
                )
        }),
    decreases order.len(),
{
    let bytes = encode_utf8(journal::snapshot_text(order, m));
    if order.len() == 0 {
        assert(bytes =~= Seq::empty());
        seq![0]
    } else {
        reveal_strlit(" ");
        reveal_strlit("\n");
        let before = order.drop_last();
        let key = order.last();
        let text = key + seq![' '] + m[key] + seq!['\n'];
        let head = encode_utf8(journal::snapshot_text(before, m));
        let shorter = lemma_snapshot_cuts(before, m);
        assert(journal::entry_line(key, m[key]) =~= text);
        lines::lemma_encode_joined(journal::snapshot_text(before, m), text);
        lines::lemma_encode_joined(key + seq![' '] + m[key], seq!['\n']);
        lines::lemma_encode_newline();
        let cuts = shorter.push(bytes.len() as int);
        assert forall|i: int| 0 <= i < order.len() implies 0 <= #[trigger] cuts[i] < cuts[i + 1]
            <= bytes.len() && bytes.subrange(cuts[i], cuts[i + 1]) == encode_utf8(
            order[i] + seq![' '] + m[order[i]] + seq!['\n'],
        ) by {
            if i < before.len() {
                assert(0 <= shorter[i] < shorter[i + 1] <= head.len());
                assert(before[i] == order[i]);
                assert(bytes.subrange(cuts[i], cuts[i + 1]) =~= head.subrange(
                    shorter[i],
                    shorter[i + 1],
                ));
            } else {
                assert(bytes.subrange(cuts[i], cuts[i + 1]) =~= encode_utf8(text));
            }
        }
        cuts
    }
}

/// A snapshot holds every key once, with its value, each on a line of its own: the
/// key, a space, and the value.
pub proof fn law_snapshot_lines_are_its_entries(
    bytes: Seq<u8>,
    m: Map<Seq<char>, Seq<char>>,
) -> (order: Seq<Seq<char>>)
    requires
        journal::is_snapshot(bytes, m),
        forall|k: Seq<char>| #[trigger] m.contains_key(k) ==> fits_on_a_line(k, m[k]),
    ensures
        order.no_duplicates(),
        forall|k: Seq<char>| #[trigger] order.contains(k) <==> m.contains_key(k),
        lines::terminated(bytes),
        lines::whole_lines(bytes).len() == order.len(),
        forall|i: int|
            0 <= i < order.len() ==> #[trigger] lines::whole_lines(bytes)[i] == encode_utf8(
                order[i] + seq![' '] + m[order[i]],
            ),
{
    let order = choose|order: Seq<Seq<char>>|
        #![trigger journal::snapshot_text(order, m)]
        table::lists(order, m.dom()) && bytes == encode_utf8(journal::snapshot_text(order, m));
    assert forall|k: Seq<char>| #[trigger] order.contains(k) <==> m.contains_key(k) by {
        assert(order.to_set().contains(k) <==> m.dom().contains(k));
    }
    assert forall|i: int| 0 <= i < order.len() implies fits_on_a_line(
        #[trigger] order[i],
        m[order[i]],
    ) by {
        assert(order.contains(order[i]));
    }
    lemma_snapshot_rows(order, m);
    order
}

/// Loading a snapshot gives back the table that it was taken of.
pub proof fn law_snapshot_gives_the_table_back(bytes: Seq<u8>, m: Map<Seq<char>, Seq<char>>)
    requires
        journal::is_snapshot(bytes, m),
        forall|k: Seq<char>| #[trigger] m.contains_key(k) ==> storable(k, m[k]),
    ensures
        journal::is_readable(bytes),
        journal::loaded(Map::empty(), bytes) == m,
{
    let order = choose|order: Seq<Seq<char>>|
        #![trigger journal::snapshot_text(order, m)]
        table::lists(order, m.dom()) && bytes == encode_utf8(journal::snapshot_text(order, m));
    assert forall|i: int| 0 <= i < order.len() implies storable(
        #[trigger] order[i],
        m[order[i]],
    ) by {
        assert(order.to_set().contains(order[i]));
        assert(m.contains_key(order[i]));
    }
    lemma_snapshot_rows(order, m);
    lemma_rows_loaded(order, m);
    lemma_terminated(bytes);
    let rows = lines::byte_lines(bytes);
    let filled = entry_rows(order, m);
    assert forall|i: int| 0 <= i < rows.len() implies valid_utf8(#[trigger] rows[i]) by {
        if i < filled.len() {
            assert(rows[i] == filled[i]);
            encode_utf8_valid_utf8(order[i] + seq![' '] + m[order[i]]);
        } else {
            lemma_blank_record();
        }
    }
    lemma_rows_readable(rows);
    assert(rows.take(rows.len() as int) =~= rows);
    assert(rows.drop_last() =~= filled);
    lemma_blank_record();
    let nothing: Seq<char> = Seq::empty();
    text::lemma_pieces_of_unsplit(nothing, 2, Separator::Space);
    assert(journal::entry_body(nothing) =~= nothing);
    assert forall|k: Seq<char>| order.contains(k) <==> m.contains_key(k) by {
        assert(order.to_set().contains(k) <==> m.dom().contains(k));
    }
    assert(journal::loaded(Map::empty(), bytes) =~= m);
}

proof fn lemma_piece_without(s: Seq<char>, n: nat, i: int, c: char)
    requires
        n >= 1,
        0 <= i < text::pieces(s, n, Separator::Space).len(),
        !s.contains(c),
    ensures
        !text::pieces(s, n, Separator::Space)[i].contains(c),
{
    text::lemma_pieces(s, n, Separator::Space);
}

/// Of text that does not end in white space, the last of several pieces is loggable
/// as a value, and a piece before it as a key.
proof fn lemma_pieces_loggable(body: Seq<char>, n: nat)
    requires
        n >= 2,
        body.len() > 0,
        !text::is_white_space(body.last()),
        !body.contains('\n'),
        text::pieces(body, n, Separator::Space).len() == n,
    ensures
        loggable(
            text::pieces(body, n, Separator::Space)[n - 2],
            text::pieces(body, n, Separator::Space)[n - 1],
        ),
{
    let parts = text::pieces(body, n, Separator::Space);
    let key = parts[n - 2];
    let value = parts[n - 1];
    text::lemma_pieces(body, n, Separator::Space);
    lemma_piece_without(body, n, n - 2, '\n');
    lemma_piece_without(body, n, n - 1, '\n');
    if key.contains(' ') {
        let j = key.index_of(' ');
        assert(!Separator::Space.splits(parts[n - 2][j]));
    }
    assert(value == parts.last());
    assert(value.last() == body.last());
}

/// What a log line sets is loggable.
proof fn lemma_record_loggable(row: Seq<u8>)
    requires
        !row.contains(NEWLINE),
    ensures
        journal::byte_record(row) matches RecordView::SetKey { key, value } ==> loggable(
            key,
            value,
        ),
{
    if valid_utf8(row) {
        let line = decode_utf8(row);
        let body = text::trimmed(line);
        lines::lemma_decode_without_newline(row);
        let (a, b) = text::lemma_trimmed_ends(line);
        if body.contains('\n') {
            let j = body.index_of('\n');
            assert(line[a + j] == '\n');
        }
        if body.len() > 0 {
            text::lemma_pieces(body, 3, Separator::Space);
            if text::pieces(body, 3, Separator::Space).len() == 3 {
                lemma_pieces_loggable(body, 3);
            }
        }
    }
}

/// What a snapshot line holds is storable.
proof fn lemma_entry_storable(row: Seq<u8>)
    requires
        !row.contains(NEWLINE),
        valid_utf8(row),
    ensures
        journal::snapshot_entry(decode_utf8(row)) matches Some((key, value)) ==> storable(
            key,
            value,
        ),
{
    let line = decode_utf8(row);
    let body = journal::entry_body(line);
    lines::lemma_decode_without_newline(row);
    let n = text::lemma_trimmed_end_bound(line);
    let (a, b) = text::lemma_trimmed_ends(line);
    if body.contains('\n') {
        let j = body.index_of('\n');
        if line[0] == ' ' {
            assert(line[j] == '\n');
        } else {
            assert(line[a + j] == '\n');
        }
    }
    let parts = text::pieces(body, 2, Separator::Space);
    if body.len() == 0 {
        text::lemma_pieces_of_unsplit(body, 2, Separator::Space);
    } else if parts.len() == 2 {
        lemma_pieces_loggable(body, 2);
        text::lemma_first_split_before(body, Separator::Space);
        if parts[0].len() > 0 {
            assert(parts[0][0] == body[0]);
        }
    }
}

proof fn lemma_replayed_lines_loggable(m: Map<Seq<char>, Seq<char>>, rows: Seq<Seq<u8>>)
    requires
        all_loggable(m),
        forall|i: int| 0 <= i < rows.len() ==> !(#[trigger] rows[i]).contains(NEWLINE),
    ensures
        all_loggable(journal::replayed_lines(m, rows)),
    decreases rows.len(),
{
    if rows.len() > 0 {
        let before = rows.drop_last();
        assert forall|i: int| 0 <= i < before.len() implies !(#[trigger] before[i]).contains(
            NEWLINE,
        ) by {
            assert(before[i] == rows[i]);
        }
        lemma_replayed_lines_loggable(m, before);
        assert(!rows[rows.len() - 1].contains(NEWLINE));
        lemma_record_loggable(rows.last());
    }
}

proof fn lemma_loaded_lines_storable(rows: Seq<Seq<u8>>)
    requires
        forall|i: int|
            0 <= i < rows.len() ==> !(#[trigger] rows[i]).contains(NEWLINE) && valid_utf8(rows[i]),
    ensures
        all_storable(journal::loaded_lines(Map::empty(), rows)),
    decreases rows.len(),
{
    if rows.len() > 0 {
        let before = rows.drop_last();
        assert forall|i: int| 0 <= i < before.len() implies !(#[trigger] before[i]).contains(
            NEWLINE,
        ) && valid_utf8(before[i]) by {
            assert(before[i] == rows[i]);
        }
        lemma_loaded_lines_storable(before);
        assert(!rows[rows.len() - 1].contains(NEWLINE));
        lemma_entry_storable(rows.last());
    }
}

pub(crate) proof fn lemma_readable(rows: Seq<Seq<u8>>)
    ensures
        journal::readable(rows) <= rows.len(),
        forall|i: int| 0 <= i < journal::readable(rows) ==> valid_utf8(#[trigger] rows[i]),
    decreases rows.len(),
{
    if rows.len() > 0 && valid_utf8(rows[0]) {
        lemma_readable(rows.skip(1));
        assert forall|i: int| 0 <= i < journal::readable(rows) implies valid_utf8(
            #[trigger] rows[i],
        ) by {
            if i > 0 {
                assert(rows[i] == rows.skip(1)[i - 1]);
            }
        }
    }
}

/// What comes out of a snapshot can go into the log and another snapshot.
pub proof fn law_loaded_entries_are_storable(bytes: Seq<u8>)
    ensures
        all_storable(journal::loaded(Map::empty(), bytes)),
{
    let rows = lines::byte_lines(bytes);
    lines::lemma_byte_lines(bytes);
    lemma_readable(rows);
    let good = rows.take(journal::readable(rows) as int);
    assert forall|i: int| 0 <= i < good.len() implies !(#[trigger] good[i]).contains(NEWLINE)
        && valid_utf8(good[i]) by {
        assert(good[i] == rows[i]);
    }
    lemma_loaded_lines_storable(good);
}

/// What comes out of a log can go into another log.
pub proof fn law_replayed_entries_are_loggable(m: Map<Seq<char>, Seq<char>>, log: Seq<u8>)
    requires
        all_loggable(m),
    ensures
        all_loggable(journal::replayed(m, log)),
{
    let rows = lines::byte_lines(log);
    lines::lemma_byte_lines(log);
    lemma_replayed_lines_loggable(m, rows);
}

} // verus!
