//! What single lines of the log and of a snapshot do: the laws of the two formats,
//! stated on the text of a line.

use vstd::prelude::*;
use vstd::utf8::*;
use crate::grammar;
use crate::journal;
use crate::lines;
use crate::lines::NEWLINE;
use crate::recovery;
use crate::store;
use crate::text;
use crate::text::Separator;

verus! {

/// A log with one more line of text.
pub open spec fn with_line(log: Seq<u8>, line: Seq<char>) -> Seq<u8> {
    log + encode_utf8(line + seq!['\n'])
}

/// The lines of a log that are skipped.
pub open spec fn skipped(log: Seq<u8>) -> Seq<Seq<char>> {
    journal::unknown_lines(lines::byte_lines(log))
}

/// A line of a log that does nothing, and is not handed back as skipped.
pub open spec fn passes_over(m: Map<Seq<char>, Seq<char>>, log: Seq<u8>, line: Seq<char>) -> bool {
    &&& journal::replayed(m, with_line(log, line)) == journal::replayed(m, log)
    &&& skipped(with_line(log, line)) == skipped(log)
}

/// A line of a log that does nothing, and is handed back as skipped, without the
/// white space around it.
pub open spec fn skips(m: Map<Seq<char>, Seq<char>>, log: Seq<u8>, line: Seq<char>) -> bool {
    &&& journal::replayed(m, with_line(log, line)) == journal::replayed(m, log)
    &&& skipped(with_line(log, line)) == skipped(log).push(text::trimmed(line))
}

/// A line of a log that makes the table another one, and is not handed back.
pub open spec fn makes(
    m: Map<Seq<char>, Seq<char>>,
    log: Seq<u8>,
    line: Seq<char>,
    after: Map<Seq<char>, Seq<char>>,
) -> bool {
    &&& journal::replayed(m, with_line(log, line)) == after
    &&& skipped(with_line(log, line)) == skipped(log)
}

/// Whether the text can be the first word of a log line whose rest is `tail`: it
/// holds no space, and trimming the line leaves it whole.
pub open spec fn first_word(w: Seq<char>, tail: Seq<char>) -> bool {
    &&& w.len() > 0
    &&& !w.contains(' ')
    &&& !text::is_white_space(w[0])
    &&& !text::is_white_space(w.last()) || !grammar::blank(tail)
    &&& tail.len() > 0 ==> tail[0] == ' ' || grammar::blank(tail)
}

proof fn lemma_unknown_pushed(rows: Seq<Seq<u8>>, row: Seq<u8>)
    ensures
        journal::unknown_lines(rows.push(row)) == if journal::byte_record(row) is Unknown {
            journal::unknown_lines(rows).push(text::trimmed(lines::text_of(row)))
        } else {
            journal::unknown_lines(rows)
        },
{
    assert(rows.push(row).drop_last() =~= rows);
}

proof fn lemma_skipped_whole(log: Seq<u8>)
    requires
        lines::terminated(log),
    ensures
        skipped(log) == journal::unknown_lines(lines::whole_lines(log)),
{
    recovery::lemma_terminated(log);
    recovery::lemma_blank_record();
    lemma_unknown_pushed(lines::whole_lines(log), Seq::empty());
}

proof fn lemma_line(m: Map<Seq<char>, Seq<char>>, log: Seq<u8>, line: Seq<char>)
    requires
        lines::terminated(log),
        !line.contains('\n'),
    ensures
        journal::replayed(m, with_line(log, line)) == journal::applied(
            journal::replayed(m, log),
            journal::record(line),
        ),
        skipped(with_line(log, line)) == if journal::record(line) is Unknown {
            skipped(log).push(text::trimmed(line))
        } else {
            skipped(log)
        },
{
    recovery::lemma_replayed_with_line(m, log, false, line);
    let bytes = encode_utf8(line);
    lines::lemma_encode_joined(line, seq!['\n']);
    lines::lemma_encode_newline();
    lines::lemma_encode_without_newline(line);
    assert(with_line(log, line) =~= log + bytes + seq![NEWLINE]);
    recovery::lemma_line_appended(log, bytes);
    encode_utf8_valid_utf8(line);
    encode_utf8_decode_utf8(line);
    lemma_skipped_whole(log);
    lemma_skipped_whole(with_line(log, line));
    lemma_unknown_pushed(lines::whole_lines(log), bytes);
}

/// The first word of a line and what follows it, as the log reads them.
proof fn lemma_words(pre: Seq<char>, w: Seq<char>, tail: Seq<char>) -> (args: Seq<Seq<char>>)
    requires
        grammar::blank(pre),
        first_word(w, tail),
    ensures
        journal::record(pre + w + tail) == journal::record_parts(text::uppercase(w), args),
        grammar::blank(tail) && !(pre.len() == 0 && tail == seq![' ']) ==> args.len() == 0,
        pre.len() == 0 && tail == seq![' '] ==> args == seq![Seq::<char>::empty()],
        !grammar::blank(tail) ==> args == text::pieces(
            text::trimmed_end(tail).skip(1),
            2,
            Separator::Space,
        ),
{
    let sep = Separator::Space;
    let line = pre + w + tail;
    let k = pre.len() + w.len();
    let n = text::lemma_trimmed_end_bound(tail);
    assert(grammar::blank(tail) ==> n == 0) by {
        if grammar::blank(tail) && n > 0 {
            assert(text::is_white_space(tail[n - 1]));
        }
    }
    assert(!grammar::blank(tail) ==> n > 0);
    assert forall|j: int| k + n <= j < line.len() implies text::is_white_space(line[j]) by {
        assert(line[j] == tail[j - k]);
    }
    text::lemma_trimmed_at(line, pre.len() as int, k + n);
    let body = text::trimmed(line);
    let end = text::trimmed_end(tail);
    assert(body =~= w + end);
    assert forall|j: int| 0 <= j < w.len() implies !sep.splits(w[j]) by {
        assert(w.contains(w[j]));
    }
    reveal_strlit(" ");
    assert(" "@ =~= seq![' ']);
    if n == 0 {
        assert(body =~= w);
        text::lemma_pieces_of_unsplit(w, 3, sep);
        if line == body + " "@ {
            assert(line.len() == w.len() + 1);
            if pre.len() > 0 {
                assert(line[0] == pre[0]);
                assert(line[0] == w[0]);
            }
            assert(tail =~= seq![' ']) by {
                assert(tail[0] == line[w.len() as int]);
            }
            seq![Seq::empty()]
        } else {
            assert(text::pieces(body, 3, sep).skip(1) =~= Seq::empty());
            if pre.len() == 0 && tail == seq![' '] {
                assert(line =~= body + " "@);
            }
            Seq::empty()
        }
    } else {
        let rest = end.skip(1);
        assert(body =~= w + seq![' '] + rest);
        text::lemma_pieces_of_joined(w, ' ', rest, 3, sep);
        text::lemma_pieces(rest, 2, sep);
        let args = text::pieces(rest, 2, sep);
        assert(text::pieces(body, 3, sep) =~= seq![w] + args);
        assert((seq![w] + args).skip(1) =~= args);
        args
    }
}

/// A blank line of the log does nothing.
pub proof fn law_blank_log_lines_do_nothing(
    m: Map<Seq<char>, Seq<char>>,
    log: Seq<u8>,
    line: Seq<char>,
)
    requires
        lines::terminated(log),
        !line.contains('\n'),
        grammar::blank(line),
    ensures
        passes_over(m, log, line),
{
    text::lemma_trimmed_at(line, line.len() as int, line.len() as int);
    lemma_line(m, log, line);
}

/// A log line whose first word, in capitals, is none of SET, DEL and FLUSHDB leaves
/// the table as it was and is handed back as skipped, whatever follows that word.
pub proof fn law_other_log_lines_are_skipped(
    m: Map<Seq<char>, Seq<char>>,
    log: Seq<u8>,
    pre: Seq<char>,
    w: Seq<char>,
    tail: Seq<char>,
)
    requires
        lines::terminated(log),
        !(pre + w + tail).contains('\n'),
        grammar::blank(pre),
        first_word(w, tail),
        text::uppercase(w) != "SET"@,
        text::uppercase(w) != "DEL"@,
        text::uppercase(w) != "FLUSHDB"@,
    ensures
        skips(m, log, pre + w + tail),
{
    let args = lemma_words(pre, w, tail);
    lemma_line(m, log, pre + w + tail);
}

proof fn lemma_verbs()
    ensures
        "SET"@ != "DEL"@,
        "SET"@ != "FLUSHDB"@,
        "DEL"@ != "FLUSHDB"@,
{
    reveal_strlit("SET");
    reveal_strlit("DEL");
    reveal_strlit("FLUSHDB");
    assert("SET"@[0] == 'S' && "DEL"@[0] == 'D' && "FLUSHDB"@[0] == 'F');
}

/// A log line of the word SET in any letter case, a key and a value gives the key
/// that value, all of it. White space around the line does not matter.
pub proof fn law_set_lines_set(
    m: Map<Seq<char>, Seq<char>>,
    log: Seq<u8>,
    pre: Seq<char>,
    w: Seq<char>,
    key: Seq<char>,
    value: Seq<char>,
    post: Seq<char>,
)
    requires
        lines::terminated(log),
        !(pre + w + seq![' '] + key + seq![' '] + value + post).contains('\n'),
        grammar::blank(pre),
        w.len() > 0,
        !w.contains(' '),
        !text::is_white_space(w[0]),
        text::uppercase(w) == "SET"@,
        !key.contains(' '),
        value.len() > 0,
        !text::is_white_space(value.last()),
        grammar::blank(post),
    ensures
        makes(
            m,
            log,
            pre + w + seq![' '] + key + seq![' '] + value + post,
            journal::replayed(m, log).insert(key, value),
        ),
{
    let sep = Separator::Space;
    let line = pre + w + seq![' '] + key + seq![' '] + value + post;
    let front = seq![' '] + key + seq![' '] + value;
    let tail = front + post;
    assert(line =~= pre + w + tail);
    lemma_padded_end(front, post);
    assert(front.last() == value.last());
    assert(!grammar::blank(tail)) by {
        assert(tail[front.len() - 1] == value.last());
    }
    let args = lemma_words(pre, w, tail);
    assert(front.skip(1) =~= key + seq![' '] + value);
    assert forall|j: int| 0 <= j < key.len() implies !sep.splits(key[j]) by {
        assert(key.contains(key[j]));
    }
    text::lemma_pieces_of_joined(key, ' ', value, 2, sep);
    text::law_one_piece_is_the_text(value, sep);
    assert(args =~= seq![key, value]);
    lemma_line(m, log, line);
}

proof fn lemma_padded_end(s: Seq<char>, pad: Seq<char>)
    requires
        s.len() > 0,
        !text::is_white_space(s.last()),
        grammar::blank(pad),
    ensures
        text::trimmed_end(s + pad) == s,
{
    let all = s + pad;
    let n = text::lemma_trimmed_end_bound(all);
    assert(n == s.len()) by {
        if n > s.len() {
            assert(text::is_white_space(pad[n - 1 - s.len()]));
        }
        if n < s.len() {
            assert(text::is_white_space(all[s.len() - 1]));
        }
    }
    assert(all.take(n) =~= s);
}

/// A log line of the word SET without a value is skipped.
pub proof fn law_set_lines_without_a_value_are_skipped(
    m: Map<Seq<char>, Seq<char>>,
    log: Seq<u8>,
    pre: Seq<char>,
    w: Seq<char>,
    key: Seq<char>,
    post: Seq<char>,
)
    requires
        lines::terminated(log),
        !(pre + w + seq![' '] + key + post).contains('\n'),
        !(pre + w + post).contains('\n'),
        grammar::blank(pre),
        first_word(w, post),
        text::uppercase(w) == "SET"@,
        !key.contains(' '),
        key.len() > 0,
        !text::is_white_space(key.last()),
        grammar::blank(post),
    ensures
        skips(m, log, pre + w + post),
        skips(m, log, pre + w + seq![' '] + key + post),
{
    lemma_verbs();
    let none = lemma_words(pre, w, post);
    lemma_line(m, log, pre + w + post);
    let line = pre + w + seq![' '] + key + post;
    let front = seq![' '] + key;
    let tail = front + post;
    assert(line =~= pre + w + tail);
    lemma_padded_end(front, post);
    assert(!grammar::blank(tail)) by {
        assert(tail[front.len() - 1] == key.last());
    }
    let args = lemma_words(pre, w, tail);
    assert(front.skip(1) =~= key);
    assert forall|j: int| 0 <= j < key.len() implies !Separator::Space.splits(key[j]) by {
        assert(key.contains(key[j]));
    }
    text::lemma_pieces_of_unsplit(key, 2, Separator::Space);
    lemma_line(m, log, line);
}

/// A log line of the word DEL in any letter case and a key deletes that key, whatever
/// follows it. White space around the line does not matter.
pub proof fn law_del_lines_delete(
    m: Map<Seq<char>, Seq<char>>,
    log: Seq<u8>,
    pre: Seq<char>,
    w: Seq<char>,
    key: Seq<char>,
    tail: Seq<char>,
)
    requires
        lines::terminated(log),
        !(pre + w + seq![' '] + key + tail).contains('\n'),
        grammar::blank(pre),
        w.len() > 0,
        !w.contains(' '),
        !text::is_white_space(w[0]),
        text::uppercase(w) == "DEL"@,
        !key.contains(' '),
        if grammar::blank(tail) {
            key.len() > 0 && !text::is_white_space(key.last())
        } else {
            tail[0] == ' '
        },
    ensures
        makes(
            m,
            log,
            pre + w + seq![' '] + key + tail,
            journal::replayed(m, log).remove(key),
        ),
{
    let sep = Separator::Space;
    lemma_verbs();
    let line = pre + w + seq![' '] + key + tail;
    let front = seq![' '] + key;
    let all = front + tail;
    assert(line =~= pre + w + all);
    assert forall|j: int| 0 <= j < key.len() implies !sep.splits(key[j]) by {
        assert(key.contains(key[j]));
    }
    if grammar::blank(tail) {
        assert(front.last() == key.last());
        lemma_padded_end(front, tail);
        assert(!grammar::blank(all)) by {
            assert(all[front.len() - 1] == key.last());
        }
        let args = lemma_words(pre, w, all);
        assert(front.skip(1) =~= key);
        text::lemma_pieces_of_unsplit(key, 2, sep);
    } else {
        let n = text::lemma_trimmed_end_bound(tail);
        let short = front + tail.take(n);
        let pad = tail.skip(n);
        assert(n > 0);
        assert(all =~= short + pad);
        assert(short.last() == tail[n - 1]);
        lemma_padded_end(short, pad);
        assert(!grammar::blank(all)) by {
            assert(all[front.len() + n - 1] == tail[n - 1]);
        }
        let args = lemma_words(pre, w, all);
        let rest = tail.take(n).skip(1);
        assert(short.skip(1) =~= key + seq![' '] + rest);
        text::lemma_pieces_of_joined(key, ' ', rest, 2, sep);
        text::law_one_piece_is_the_text(rest, sep);
    }
    lemma_line(m, log, line);
}

/// A log line of the word DEL alone is skipped, but for one: with a single space
/// behind it, and nothing else, it deletes the empty key.
pub proof fn law_bare_del_lines(
    m: Map<Seq<char>, Seq<char>>,
    log: Seq<u8>,
    pre: Seq<char>,
    w: Seq<char>,
    post: Seq<char>,
)
    requires
        lines::terminated(log),
        !(pre + w + post).contains('\n'),
        grammar::blank(pre),
        first_word(w, post),
        text::uppercase(w) == "DEL"@,
        grammar::blank(post),
    ensures
        if pre.len() == 0 && post == seq![' '] {
            makes(m, log, pre + w + post, journal::replayed(m, log).remove(Seq::empty()))
        } else {
            skips(m, log, pre + w + post)
        },
{
    lemma_verbs();
    let args = lemma_words(pre, w, post);
    lemma_line(m, log, pre + w + post);
}

/// A log line whose first word is FLUSHDB, in any letter case, empties the table,
/// whatever follows.
pub proof fn law_flush_lines_empty_the_table(
    m: Map<Seq<char>, Seq<char>>,
    log: Seq<u8>,
    pre: Seq<char>,
    w: Seq<char>,
    tail: Seq<char>,
)
    requires
        lines::terminated(log),
        !(pre + w + tail).contains('\n'),
        grammar::blank(pre),
        first_word(w, tail),
        text::uppercase(w) == "FLUSHDB"@,
    ensures
        makes(m, log, pre + w + tail, Map::empty()),
{
    lemma_verbs();
    let args = lemma_words(pre, w, tail);
    lemma_line(m, log, pre + w + tail);
}

/// A line of the log that is not UTF-8 leaves the table as it was and is handed back
/// as skipped, with replacement characters.
pub proof fn law_log_lines_that_are_no_text_are_skipped(
    m: Map<Seq<char>, Seq<char>>,
    log: Seq<u8>,
    junk: Seq<u8>,
)
    requires
        lines::terminated(log),
        !junk.contains(NEWLINE),
        !valid_utf8(junk),
    ensures
        journal::replayed(m, log + junk + seq![NEWLINE]) == journal::replayed(m, log),
        skipped(log + junk + seq![NEWLINE]) == skipped(log).push(
            text::trimmed(lines::lossy_utf8(junk)),
        ),
{
    let nothing: Seq<u8> = Seq::empty();
    assert(log + junk + seq![NEWLINE] + nothing =~= log + junk + seq![NEWLINE]);
    assert(log + nothing =~= log);
    recovery::law_corrupt_line_is_skipped(m, log, junk, nothing);
    recovery::lemma_line_appended(log, junk);
    lemma_skipped_whole(log);
    lemma_skipped_whole(log + junk + seq![NEWLINE]);
    lemma_unknown_pushed(lines::whole_lines(log), junk);
}

/// A line end at the end of a log makes no difference.
pub proof fn law_last_line_end_makes_no_difference(m: Map<Seq<char>, Seq<char>>, log: Seq<u8>)
    ensures
        journal::replayed(m, log + seq![NEWLINE]) == journal::replayed(m, log),
        skipped(log + seq![NEWLINE]) == skipped(log),
{
    let nothing: Seq<u8> = Seq::empty();
    assert(log + seq![NEWLINE] =~= log + (seq![NEWLINE] + nothing));
    recovery::law_closed_log_can_be_extended(m, log, nothing);
    recovery::law_empty_log_changes_nothing(journal::replayed(m, log));
    assert(log + seq![NEWLINE] =~= log + seq![NEWLINE] + nothing);
    lines::lemma_byte_lines_joined(log, nothing);
    recovery::lemma_terminated(nothing);
    let rows = lines::byte_lines(log);
    assert(lines::byte_lines(log + seq![NEWLINE]) =~= rows.push(nothing));
    recovery::lemma_blank_record();
    lemma_unknown_pushed(rows, nothing);
}

/// An empty log has no line to skip.
pub proof fn law_empty_log_skips_nothing()
    ensures
        skipped(Seq::empty()) == Seq::<Seq<char>>::empty(),
{
    let nothing: Seq<u8> = Seq::empty();
    recovery::lemma_terminated(nothing);
    lemma_skipped_whole(nothing);
}

/// A snapshot can be read if and only if each of its lines is UTF-8.
pub proof fn law_readable_snapshots(bytes: Seq<u8>)
    ensures
        journal::is_readable(bytes) <==> forall|i: int|
            0 <= i < lines::byte_lines(bytes).len() ==> valid_utf8(
                #[trigger] lines::byte_lines(bytes)[i],
            ),
{
    let rows = lines::byte_lines(bytes);
    recovery::lemma_readable(rows);
    if forall|i: int| 0 <= i < rows.len() ==> valid_utf8(#[trigger] rows[i]) {
        recovery::lemma_rows_readable(rows);
    }
}

/// An empty snapshot changes nothing.
pub proof fn law_empty_snapshot_changes_nothing(m: Map<Seq<char>, Seq<char>>)
    ensures
        journal::is_readable(Seq::empty()),
        journal::loaded(m, Seq::empty()) == m,
{
    let nothing: Seq<u8> = Seq::empty();
    lemma_loaded_whole(m, nothing);
    recovery::lemma_terminated(nothing);
    assert(lines::byte_lines(nothing).len() == 1);
    recovery::lemma_blank_record();
    law_readable_snapshots(nothing);
    lemma_loaded_whole(m, nothing);
    assert(journal::loaded_lines(m, lines::whole_lines(nothing)) == m);
}

proof fn lemma_loaded_whole(m: Map<Seq<char>, Seq<char>>, bytes: Seq<u8>)
    requires
        lines::terminated(bytes),
    ensures
        journal::is_readable(bytes) ==> journal::loaded(m, bytes) == journal::loaded_lines(
            m,
            lines::whole_lines(bytes),
        ),
{
    recovery::lemma_terminated(bytes);
    recovery::lemma_blank_record();
    let rows = lines::byte_lines(bytes);
    let nothing: Seq<char> = Seq::empty();
    assert(rows.take(rows.len() as int) =~= rows);
    assert(rows.drop_last() =~= lines::whole_lines(bytes));
    text::lemma_pieces_of_unsplit(nothing, 2, Separator::Space);
    assert(journal::entry_body(nothing) =~= nothing);
}

proof fn lemma_loaded_line(m: Map<Seq<char>, Seq<char>>, bytes: Seq<u8>, line: Seq<char>)
    requires
        lines::terminated(bytes),
        journal::is_readable(bytes),
        !line.contains('\n'),
    ensures
        journal::is_readable(with_line(bytes, line)),
        journal::loaded(m, with_line(bytes, line)) == journal::with_entry(
            journal::loaded(m, bytes),
            journal::snapshot_entry(line),
        ),
{
    let row = encode_utf8(line);
    let longer = with_line(bytes, line);
    lines::lemma_encode_joined(line, seq!['\n']);
    lines::lemma_encode_newline();
    lines::lemma_encode_without_newline(line);
    assert(longer =~= bytes + row + seq![NEWLINE]);
    recovery::lemma_line_appended(bytes, row);
    recovery::lemma_terminated(bytes);
    recovery::lemma_terminated(longer);
    recovery::lemma_blank_record();
    encode_utf8_valid_utf8(line);
    encode_utf8_decode_utf8(line);
    law_readable_snapshots(bytes);
    law_readable_snapshots(longer);
    let rows = lines::byte_lines(longer);
    assert forall|i: int| 0 <= i < rows.len() implies valid_utf8(#[trigger] rows[i]) by {
        let n = lines::whole_lines(bytes).len();
        if i < n {
            assert(rows[i] == lines::byte_lines(bytes)[i]);
        }
    }
    lemma_loaded_whole(m, bytes);
    lemma_loaded_whole(m, longer);
    let whole = lines::whole_lines(bytes);
    assert(whole.push(row).drop_last() =~= whole);
}

/// A snapshot line of a key, a space and a value gives the key that value, all of it.
/// White space around the line does not matter, unless it begins with a space.
pub proof fn law_snapshot_lines_set(
    m: Map<Seq<char>, Seq<char>>,
    bytes: Seq<u8>,
    pre: Seq<char>,
    key: Seq<char>,
    value: Seq<char>,
    post: Seq<char>,
)
    requires
        lines::terminated(bytes),
        journal::is_readable(bytes),
        !(pre + key + seq![' '] + value + post).contains('\n'),
        grammar::blank(pre),
        pre.len() > 0 ==> pre[0] != ' ',
        key.len() > 0,
        !key.contains(' '),
        !text::is_white_space(key[0]),
        value.len() > 0,
        !text::is_white_space(value.last()),
        grammar::blank(post),
    ensures
        journal::is_readable(with_line(bytes, pre + key + seq![' '] + value + post)),
        journal::loaded(m, with_line(bytes, pre + key + seq![' '] + value + post))
            == journal::loaded(m, bytes).insert(key, value),
{
    let sep = Separator::Space;
    let body = key + seq![' '] + value;
    let line = pre + key + seq![' '] + value + post;
    assert(line =~= pre + body + post);
    text::lemma_trimmed_padded(pre, body, post);
    text::lemma_trimmed_fixed(body);
    assert(line[0] != ' ') by {
        if pre.len() == 0 {
            assert(line[0] == key[0]);
        } else {
            assert(line[0] == pre[0]);
        }
    }
    assert(journal::entry_body(line) == body);
    assert forall|j: int| 0 <= j < key.len() implies !sep.splits(key[j]) by {
        assert(key.contains(key[j]));
    }
    text::lemma_pieces_of_joined(key, ' ', value, 2, sep);
    text::law_one_piece_is_the_text(value, sep);
    assert(text::pieces(body, 2, sep) =~= seq![key, value]);
    lemma_loaded_line(m, bytes, line);
}

/// A snapshot line that begins with a space gives the empty key the value behind it,
/// all of it but white space at the end.
pub proof fn law_snapshot_lines_set_the_empty_key(
    m: Map<Seq<char>, Seq<char>>,
    bytes: Seq<u8>,
    value: Seq<char>,
    post: Seq<char>,
)
    requires
        lines::terminated(bytes),
        journal::is_readable(bytes),
        !(seq![' '] + value + post).contains('\n'),
        value.len() > 0,
        !text::is_white_space(value.last()),
        grammar::blank(post),
    ensures
        journal::is_readable(with_line(bytes, seq![' '] + value + post)),
        journal::loaded(m, with_line(bytes, seq![' '] + value + post)) == journal::loaded(
            m,
            bytes,
        ).insert(Seq::empty(), value),
{
    let sep = Separator::Space;
    let body = seq![' '] + value;
    let line = seq![' '] + value + post;
    let nothing: Seq<char> = Seq::empty();
    assert(body.last() == value.last());
    lemma_padded_end(body, post);
    assert(journal::entry_body(line) == body);
    assert(body =~= nothing + seq![' '] + value);
    text::lemma_pieces_of_joined(nothing, ' ', value, 2, sep);
    text::law_one_piece_is_the_text(value, sep);
    assert(text::pieces(body, 2, sep) =~= seq![nothing, value]);
    lemma_loaded_line(m, bytes, line);
}

/// A snapshot line that is blank, or has no space within it, changes nothing.
pub proof fn law_other_snapshot_lines_do_nothing(
    m: Map<Seq<char>, Seq<char>>,
    bytes: Seq<u8>,
    pre: Seq<char>,
    body: Seq<char>,
    post: Seq<char>,
)
    requires
        lines::terminated(bytes),
        journal::is_readable(bytes),
        !(pre + body + post).contains('\n'),
        grammar::blank(pre),
        grammar::blank(post),
        body.len() > 0 ==> {
            &&& pre.len() > 0 ==> pre[0] != ' '
            &&& !body.contains(' ')
            &&& !text::is_white_space(body[0])
            &&& !text::is_white_space(body.last())
        },
    ensures
        journal::is_readable(with_line(bytes, pre + body + post)),
        journal::loaded(m, with_line(bytes, pre + body + post)) == journal::loaded(m, bytes),
{
    let sep = Separator::Space;
    let line = pre + body + post;
    let nothing: Seq<char> = Seq::empty();
    if body.len() > 0 {
        text::lemma_trimmed_padded(pre, body, post);
        text::lemma_trimmed_fixed(body);
        assert(line[0] != ' ') by {
            if pre.len() == 0 {
                assert(line[0] == body[0]);
            } else {
                assert(line[0] == pre[0]);
            }
        }
        assert(journal::entry_body(line) == body);
        assert forall|j: int| 0 <= j < body.len() implies !sep.splits(body[j]) by {
            assert(body.contains(body[j]));
        }
        text::lemma_pieces_of_unsplit(body, 2, sep);
    } else {
        text::lemma_trimmed_at(line, line.len() as int, line.len() as int);
        let n = text::lemma_trimmed_end_bound(line);
        assert(n == 0) by {
            if n > 0 {
                if n <= pre.len() {
                    assert(text::is_white_space(pre[n - 1]));
                } else {
                    assert(text::is_white_space(post[n - 1 - pre.len()]));
                }
            }
        }
        assert(journal::entry_body(line) =~= nothing);
        text::lemma_pieces_of_unsplit(nothing, 2, sep);
    }
    lemma_loaded_line(m, bytes, line);
}

/// A line end at the end of a snapshot makes no difference.
pub proof fn law_last_snapshot_line_end_makes_no_difference(
    m: Map<Seq<char>, Seq<char>>,
    bytes: Seq<u8>,
)
    ensures
        journal::is_readable(bytes + seq![NEWLINE]) == journal::is_readable(bytes),
        journal::loaded(m, bytes + seq![NEWLINE]) == journal::loaded(m, bytes),
{
    let nothing: Seq<u8> = Seq::empty();
    let no_text: Seq<char> = Seq::empty();
    let longer = bytes + seq![NEWLINE];
    assert(longer =~= bytes + seq![NEWLINE] + nothing);
    lines::lemma_byte_lines_joined(bytes, nothing);
    recovery::lemma_terminated(nothing);
    let rows = lines::byte_lines(bytes);
    assert(lines::byte_lines(longer) =~= rows.push(nothing));
    recovery::lemma_blank_record();
    law_readable_snapshots(bytes);
    law_readable_snapshots(longer);
    if journal::is_readable(bytes) {
        assert forall|i: int| 0 <= i < rows.push(nothing).len() implies valid_utf8(
            #[trigger] rows.push(nothing)[i],
        ) by {
            if i < rows.len() {
                assert(rows.push(nothing)[i] == rows[i]);
            }
        }
    } else {
        let i = choose|i: int| 0 <= i < rows.len() && !valid_utf8(#[trigger] rows[i]);
        assert(rows.push(nothing)[i] == rows[i]);
    }
    lemma_readable_pushed(rows, nothing);
    if journal::is_readable(bytes) {
        assert(rows.push(nothing).take(rows.len() as int + 1).drop_last() =~= rows);
        assert(rows.take(rows.len() as int) =~= rows);
        text::lemma_pieces_of_unsplit(no_text, 2, Separator::Space);
        assert(journal::entry_body(no_text) =~= no_text);
    } else {
        recovery::lemma_readable(rows);
        let n = journal::readable(rows) as int;
        assert(rows.push(nothing).take(n) =~= rows.take(n));
    }
}

proof fn lemma_readable_pushed(rows: Seq<Seq<u8>>, row: Seq<u8>)
    ensures
        journal::readable(rows.push(row)) == if journal::readable(rows) < rows.len() {
            journal::readable(rows)
        } else if valid_utf8(row) {
            rows.len() + 1
        } else {
            rows.len()
        },
    decreases rows.len(),
{
    recovery::lemma_readable(rows);
    if rows.len() == 0 {
        assert(rows.push(row).skip(1) =~= Seq::empty());
        assert(journal::readable(rows.push(row).skip(1)) == 0);
    } else {
        assert(rows.push(row).skip(1) =~= rows.skip(1).push(row));
        lemma_readable_pushed(rows.skip(1), row);
    }
}

/// Loading stops before the first line that is not UTF-8, whatever follows it.
pub proof fn law_loading_stops_at_a_line_that_is_no_text(
    m: Map<Seq<char>, Seq<char>>,
    bytes: Seq<u8>,
    bad: Seq<u8>,
    after: Seq<u8>,
)
    requires
        lines::terminated(bytes),
        journal::is_readable(bytes),
        !bad.contains(NEWLINE),
        !valid_utf8(bad),
    ensures
        !journal::is_readable(bytes + bad + seq![NEWLINE] + after),
        journal::loaded(m, bytes + bad + seq![NEWLINE] + after) == journal::loaded(m, bytes),
{
    let head = bytes + bad + seq![NEWLINE];
    let all = head + after;
    recovery::lemma_line_appended(bytes, bad);
    recovery::lemma_lines_appended(head, after);
    recovery::lemma_terminated(bytes);
    let whole = lines::whole_lines(bytes);
    let rows = lines::byte_lines(all);
    let n = whole.len() as int;
    assert(rows[n] == bad);
    law_readable_snapshots(bytes);
    law_readable_snapshots(all);
    recovery::lemma_readable(rows);
    assert forall|i: int| 0 <= i < n implies valid_utf8(#[trigger] rows[i]) by {
        assert(rows[i] == lines::byte_lines(bytes)[i]);
    }
    lemma_readable_stops(rows, n);
    assert(rows.take(n) =~= whole);
    lemma_loaded_whole(m, bytes);
}

proof fn lemma_readable_stops(rows: Seq<Seq<u8>>, n: int)
    requires
        0 <= n < rows.len(),
        !valid_utf8(rows[n]),
        forall|i: int| 0 <= i < n ==> valid_utf8(#[trigger] rows[i]),
    ensures
        journal::readable(rows) == n,
    decreases n,
{
    if n > 0 {
        assert(valid_utf8(rows[0]));
        assert forall|i: int| 0 <= i < n - 1 implies valid_utf8(#[trigger] rows.skip(1)[i]) by {
            assert(rows.skip(1)[i] == rows[i + 1]);
        }
        lemma_readable_stops(rows.skip(1), n - 1);
    }
}

/// Bytes that encode a text stand for that text.
pub proof fn law_encoded_text_is_read_back(s: Seq<char>)
    ensures
        lines::text_of(encode_utf8(s)) == s,
{
    encode_utf8_valid_utf8(s);
    encode_utf8_decode_utf8(s);
}

/// Opening fails exactly if a line of the snapshot is not UTF-8. The log never makes it
/// fail. Otherwise it gives the opened store, and the skipped lines of the log.
pub proof fn law_opening_fails_only_for_the_snapshot(
    snapshot: Option<Seq<u8>>,
    log: Option<Seq<u8>>,
    dir: Seq<char>,
    threshold: u64,
)
    ensures
        ({
            let r = store::opening(snapshot, log, dir, threshold);
            let bad = snapshot matches Some(b) && exists|i: int|
                0 <= i < lines::byte_lines(b).len() && !valid_utf8(
                    #[trigger] lines::byte_lines(b)[i],
                );
            &&& bad <==> r is None
            &&& r matches Some((s, lost)) ==> {
                &&& s == store::opened(snapshot, log, dir, threshold)
                &&& log matches Some(b) ==> lost == skipped(b)
                &&& log is None ==> lost == Seq::<Seq<char>>::empty()
            }
        }),
{
    if let Some(b) = snapshot {
        law_readable_snapshots(b);
    }
}

/// A store that was just opened: its table is that of its files, entries go to the
/// log, which is torn if it does not end with a line end, and counting starts anew.
pub proof fn law_opened_store(
    snapshot: Option<Seq<u8>>,
    log: Option<Seq<u8>>,
    dir: Seq<char>,
    threshold: u64,
)
    ensures
        ({
            let s = store::opened(snapshot, log, dir, threshold);
            &&& s.data == store::recovered(snapshot, log)
            &&& s.dir == dir
            &&& s.threshold == threshold
            &&& s.logging
            &&& s.since == 0
            &&& s.torn <==> (log matches Some(b) && b.len() > 0 && b.last() != 10u8)
        }),
{
}

/// What a store holds when it is opened: nothing without files, what the snapshot
/// holds without a log, and the log replayed on top of that.
pub proof fn law_opening_loads_and_replays(snapshot: Option<Seq<u8>>, bytes: Seq<u8>, log: Seq<u8>)
    ensures
        store::recovered(None, None) == Map::<Seq<char>, Seq<char>>::empty(),
        store::recovered(Some(bytes), None) == journal::loaded(Map::empty(), bytes),
        store::recovered(snapshot, Some(log)) == journal::replayed(
            store::recovered(snapshot, None),
            log,
        ),
{
}

} // verus!
