//! The two file formats: the append-only log and the snapshot.

use vstd::prelude::*;
use vstd::slice::slice_subrange;
use vstd::string::*;
use vstd::utf8::*;
use crate::lines;
use crate::lines::NEWLINE;
use crate::table;
use crate::table::Table;
use crate::text;
use crate::text::Separator;

verus! {

/// What one line of the log says.
pub enum Record {
    /// Nothing: the line is blank.
    Blank,
    SetKey { key: String, value: String },
    Del { key: String },
    Flush,
    /// Something that is no log entry.
    Unknown,
}

/// A log line's meaning as a mathematical value.
pub enum RecordView {
    Blank,
    SetKey { key: Seq<char>, value: Seq<char> },
    Del { key: Seq<char> },
    Flush,
    Unknown,
}

impl View for Record {
    type V = RecordView;

    open spec fn view(&self) -> RecordView {
        match self {
            Record::Blank => RecordView::Blank,
            Record::SetKey { key, value } => RecordView::SetKey { key: key@, value: value@ },
            Record::Del { key } => RecordView::Del { key: key@ },
            Record::Flush => RecordView::Flush,
            Record::Unknown => RecordView::Unknown,
        }
    }
}

/// What a line of the log says: a verb in any letter case, then its arguments,
/// separated by single spaces. The value of a `SET` is all that is left. White
/// space around the line is ignored, but for one thing: a verb and one space, and
/// nothing else, is the verb with the empty key.
pub open spec fn record(line: Seq<char>) -> RecordView {
    let body = text::trimmed(line);
    if body.len() == 0 {
        RecordView::Blank
    } else {
        let parts = text::pieces(body, 3, Separator::Space);
        let args = if parts.len() == 1 && line == body + " "@ {
            seq![Seq::empty()]
        } else {
            parts.skip(1)
        };
        record_parts(text::uppercase(parts[0]), args)
    }
}

/// What a verb in upper case says with its arguments.
pub open spec fn record_parts(verb: Seq<char>, args: Seq<Seq<char>>) -> RecordView {
    if verb == "SET"@ && args.len() >= 2 {
        RecordView::SetKey { key: args[0], value: args[1] }
    } else if verb == "DEL"@ && args.len() >= 1 {
        RecordView::Del { key: args[0] }
    } else if verb == "FLUSHDB"@ {
        RecordView::Flush
    } else {
        RecordView::Unknown
    }
}

/// What a line of bytes says. Bytes that are not UTF-8 are no log entry.
pub open spec fn byte_record(line: Seq<u8>) -> RecordView {
    if valid_utf8(line) {
        record(decode_utf8(line))
    } else {
        RecordView::Unknown
    }
}

/// The table after a log entry.
pub open spec fn applied(m: Map<Seq<char>, Seq<char>>, r: RecordView) -> Map<
    Seq<char>,
    Seq<char>,
> {
    match r {
        RecordView::SetKey { key, value } => m.insert(key, value),
        RecordView::Del { key } => m.remove(key),
        RecordView::Flush => Map::empty(),
        RecordView::Blank | RecordView::Unknown => m,
    }
}

/// The table after the lines of a log, one after the other.
pub open spec fn replayed_lines(m: Map<Seq<char>, Seq<char>>, log: Seq<Seq<u8>>) -> Map<
    Seq<char>,
    Seq<char>,
>
    decreases log.len(),
{
    if log.len() == 0 {
        m
    } else {
        applied(replayed_lines(m, log.drop_last()), byte_record(log.last()))
    }
}

/// The table after a log. Its last line counts with or without a line end.
pub open spec fn replayed(m: Map<Seq<char>, Seq<char>>, log: Seq<u8>) -> Map<
    Seq<char>,
    Seq<char>,
> {
    replayed_lines(m, lines::byte_lines(log))
}

/// The lines that are no log entry, trimmed, as text.
pub open spec fn unknown_lines(log: Seq<Seq<u8>>) -> Seq<Seq<char>>
    decreases log.len(),
{
    if log.len() == 0 {
        Seq::empty()
    } else {
        let before = unknown_lines(log.drop_last());
        if byte_record(log.last()) is Unknown {
            before.push(text::trimmed(lines::text_of(log.last())))
        } else {
            before
        }
    }
}

/// What a line of the log says.
pub fn parse_record(line: &str) -> (r: Record)
    ensures
        r@ == record(line@),
{
    let body: &str = text::trim(line);
    if body.is_empty() {
        return Record::Blank;
    }
    let parts: Vec<String> = text::splitn(body, 3, Separator::Space);
    let ghost pieces = text::pieces(body@, 3, Separator::Space);
    proof {
        text::lemma_pieces(body@, 3, Separator::Space);
        assert(parts@.len() == pieces.len());
        assert forall|i: int| 0 <= i < parts@.len() implies #[trigger] parts@[i]@ == pieces[i] by {
            assert(text::views(parts@)[i] == parts@[i]@);
        }
    }
    let verb: String = text::to_uppercase(parts[0].as_str());
    if parts.len() == 1 && text::same(line, text::concat(body, " ").as_str()) {
        let mut args: Vec<String> = Vec::new();
        args.push(String::new());
        proof {
            assert(text::views(args@) =~= seq![Seq::empty()]);
        }
        return record_of(verb.as_str(), args.as_slice());
    }
    let args: &[String] = slice_subrange(parts.as_slice(), 1, parts.len());
    proof {
        assert(text::views(args@) =~= pieces.skip(1));
    }
    record_of(verb.as_str(), args)
}

/// What a verb in upper case says with its arguments.
pub fn record_of(verb: &str, args: &[String]) -> (r: Record)
    ensures
        r@ == record_parts(verb@, text::views(args@)),
{
    if text::same(verb, "SET") && args.len() >= 2 {
        Record::SetKey { key: args[0].clone(), value: args[1].clone() }
    } else if text::same(verb, "DEL") && args.len() >= 1 {
        Record::Del { key: args[0].clone() }
    } else if text::same(verb, "FLUSHDB") {
        Record::Flush
    } else {
        Record::Unknown
    }
}

fn parse_byte_record(line: &[u8]) -> (r: Record)
    ensures
        r@ == byte_record(line@),
{
    match lines::utf8_text(line) {
        Some(s) => parse_record(s),
        None => Record::Unknown,
    }
}

/// Replays the append-only log on top of `data`. A line that is no log entry is
/// skipped rather than fatal: a hand-edited log or a partial write should not
/// prevent startup. The skipped lines are handed back.
pub fn replay_aol(log: &[u8], data: &mut Table) -> (skipped: Vec<String>)
    requires
        old(data).wf(),
    ensures
        final(data).wf(),
        final(data)@ == replayed(old(data)@, log@),
        text::views(skipped@) == unknown_lines(lines::byte_lines(log@)),
{
    let rows: Vec<Vec<u8>> = lines::split_lines(log);
    let ghost all = lines::byte_lines(log@);
    let mut skipped: Vec<String> = Vec::new();
    let mut i: usize = 0;
    proof {
        assert(all.take(0) =~= Seq::empty());
        assert(text::views(skipped@) =~= Seq::empty());
    }
    while i < rows.len()
        invariant
            i <= rows.len(),
            all == lines::byte_views(rows@),
            data.wf(),
            data@ == replayed_lines(old(data)@, all.take(i as int)),
            text::views(skipped@) == unknown_lines(all.take(i as int)),
        decreases rows.len() - i,
    {
        let row: &[u8] = rows[i].as_slice();
        proof {
            assert(all[i as int] == row@);
            assert(all.take(i + 1).drop_last() =~= all.take(i as int));
        }
        match parse_byte_record(row) {
            Record::SetKey { key, value } => {
                data.insert(key, value);
            },
            Record::Del { key } => {
                data.remove(key.as_str());
            },
            Record::Flush => {
                data.clear();
            },
            Record::Blank => {},
            Record::Unknown => {
                note_skipped(row, &mut skipped);
            },
        }
        i = i + 1;
    }
    proof {
        assert(all.take(rows.len() as int) =~= all);
    }
    skipped
}

fn note_skipped(row: &[u8], skipped: &mut Vec<String>)
    ensures
        text::views(final(skipped)@) == text::views(old(skipped)@).push(
            text::trimmed(lines::text_of(row@)),
        ),
{
    let whole: String = lines::lossy_text(row);
    let line: String = text::trim(whole.as_str()).to_owned();
    skipped.push(line);
    proof {
        assert(text::views(skipped@) =~= text::views(old(skipped)@).push(line@));
    }
}

/// What counts of a line of a snapshot: it goes without the white space around it,
/// but a space at its start stays, for it stands behind the empty key.
pub open spec fn entry_body(line: Seq<char>) -> Seq<char> {
    if line.len() > 0 && line[0] == ' ' {
        text::trimmed_end(line)
    } else {
        text::trimmed(line)
    }
}

/// What a line of a snapshot holds: a key, a space, and the value.
pub open spec fn snapshot_entry(line: Seq<char>) -> Option<(Seq<char>, Seq<char>)> {
    let parts = text::pieces(entry_body(line), 2, Separator::Space);
    if parts.len() == 2 {
        Some((parts[0], parts[1]))
    } else {
        None
    }
}

/// The table after a line of a snapshot.
pub open spec fn with_entry(
    m: Map<Seq<char>, Seq<char>>,
    entry: Option<(Seq<char>, Seq<char>)>,
) -> Map<Seq<char>, Seq<char>> {
    match entry {
        Some((key, value)) => m.insert(key, value),
        None => m,
    }
}

/// The table after the lines of a snapshot.
pub open spec fn loaded_lines(m: Map<Seq<char>, Seq<char>>, rows: Seq<Seq<u8>>) -> Map<
    Seq<char>,
    Seq<char>,
>
    decreases rows.len(),
{
    if rows.len() == 0 {
        m
    } else {
        with_entry(
            loaded_lines(m, rows.drop_last()),
            snapshot_entry(decode_utf8(rows.last())),
        )
    }
}

/// How many lines there are before the first that is not UTF-8.
pub open spec fn readable(rows: Seq<Seq<u8>>) -> nat
    decreases rows.len(),
{
    if rows.len() == 0 || !valid_utf8(rows[0]) {
        0
    } else {
        1 + readable(rows.skip(1))
    }
}

/// The table after a snapshot, up to the first line that is not UTF-8.
pub open spec fn loaded(m: Map<Seq<char>, Seq<char>>, snapshot: Seq<u8>) -> Map<
    Seq<char>,
    Seq<char>,
> {
    let rows = lines::byte_lines(snapshot);
    loaded_lines(m, rows.take(readable(rows) as int))
}

/// Whether every line of the snapshot is UTF-8.
pub open spec fn is_readable(snapshot: Seq<u8>) -> bool {
    let rows = lines::byte_lines(snapshot);
    readable(rows) == rows.len()
}

/// A snapshot holds bytes that are not UTF-8.
#[derive(Debug, Clone, Copy, PartialEq, Eq)]
pub struct InvalidUtf8;

proof fn lemma_readable_at(rows: Seq<Seq<u8>>, i: int)
    requires
        0 <= i <= rows.len(),
        forall|j: int| 0 <= j < i ==> valid_utf8(#[trigger] rows[j]),
        i < rows.len() ==> !valid_utf8(rows[i]),
    ensures
        readable(rows) == i,
    decreases i,
{
    if i > 0 {
        assert forall|j: int| 0 <= j < i - 1 implies valid_utf8(#[trigger] rows.skip(1)[j]) by {
            assert(rows.skip(1)[j] == rows[j + 1]);
        }
        lemma_readable_at(rows.skip(1), i - 1);
        assert(valid_utf8(rows[0]));
    }
}

fn parse_snapshot_entry(line: &str) -> (r: Option<(String, String)>)
    ensures
        match r {
            Some((k, v)) => snapshot_entry(line@) == Some((k@, v@)),
            None => snapshot_entry(line@) is None,
        },
{
    let body: &str = if text::starts_with_space(line) {
        text::trim_end(line)
    } else {
        text::trim(line)
    };
    let parts: Vec<String> = text::splitn(body, 2, Separator::Space);
    proof {
        let pieces = text::pieces(entry_body(line@), 2, Separator::Space);
        assert(parts@.len() == pieces.len());
        assert forall|i: int| 0 <= i < parts@.len() implies #[trigger] parts@[i]@ == pieces[i] by {
            assert(text::views(parts@)[i] == parts@[i]@);
        }
    }
    if parts.len() == 2 {
        Some((parts[0].clone(), parts[1].clone()))
    } else {
        None
    }
}

/// Loads a snapshot on top of `data`: each line is `key value`, and a line
/// without a space is passed over. Bytes that are not UTF-8 end the load.
pub fn load_snapshot(snapshot: &[u8], data: &mut Table) -> (r: Result<(), InvalidUtf8>)
    requires
        old(data).wf(),
    ensures
        final(data).wf(),
        r is Ok <==> is_readable(snapshot@),
        final(data)@ == loaded(old(data)@, snapshot@),
{
    let rows: Vec<Vec<u8>> = lines::split_lines(snapshot);
    let ghost all = lines::byte_lines(snapshot@);
    let mut i: usize = 0;
    proof {
        assert(all.take(0) =~= Seq::empty());
    }
    while i < rows.len()
        invariant
            i <= rows.len(),
            all == lines::byte_lines(snapshot@),
            all == lines::byte_views(rows@),
            data.wf(),
            forall|j: int| 0 <= j < i ==> valid_utf8(#[trigger] all[j]),
            data@ == loaded_lines(old(data)@, all.take(i as int)),
        decreases rows.len() - i,
    {
        let row: &[u8] = rows[i].as_slice();
        proof {
            assert(all[i as int] == row@);
            assert(all.take(i + 1).drop_last() =~= all.take(i as int));
        }
        match lines::utf8_text(row) {
            Some(line) => match parse_snapshot_entry(line) {
                Some((key, value)) => {
                    data.insert(key, value);
                },
                None => {},
            },
            None => {
                proof {
                    lemma_readable_at(all, i as int);
                }
                return Err(InvalidUtf8);
            },
        }
        i = i + 1;
    }
    proof {
        lemma_readable_at(all, all.len() as int);
    }
    Ok(())
}

/// The snapshot's line for a key and its value.
pub open spec fn entry_line(key: Seq<char>, value: Seq<char>) -> Seq<char> {
    key + " "@ + value + "\n"@
}

/// The text of a snapshot that lists the keys in the given order.
pub open spec fn snapshot_text(order: Seq<Seq<char>>, m: Map<Seq<char>, Seq<char>>) -> Seq<char>
    decreases order.len(),
{
    if order.len() == 0 {
        Seq::empty()
    } else {
        snapshot_text(order.drop_last(), m) + entry_line(order.last(), m[order.last()])
    }
}

/// Whether the bytes are a snapshot of the table: one line per key, each key
/// once, in some order.
pub open spec fn is_snapshot(bytes: Seq<u8>, m: Map<Seq<char>, Seq<char>>) -> bool {
    exists|order: Seq<Seq<char>>|
        #![trigger snapshot_text(order, m)]
        table::lists(order, m.dom()) && bytes == encode_utf8(snapshot_text(order, m))
}

/// A snapshot of the table.
pub fn snapshot_bytes(data: &Table) -> (r: Vec<u8>)
    requires
        data.wf(),
    ensures
        is_snapshot(r@, data@),
{
    let mut out: String = String::new();
    let n: usize = data.len();
    let ghost order = data.order();
    let mut i: usize = 0;
    proof {
        assert(order.take(0) =~= Seq::empty());
    }
    while i < n
        invariant
            i <= n,
            data.wf(),
            order == data.order(),
            n == order.len(),
            out@ == snapshot_text(order.take(i as int), data@),
        decreases n - i,
    {
        let (key, value) = data.entry(i);
        proof {
            assert(order.take(i + 1).drop_last() =~= order.take(i as int));
        }
        let ghost before = out@;
        out.append(key.as_str());
        out.append(" ");
        out.append(value.as_str());
        out.append("\n");
        proof {
            assert(out@ =~= before + entry_line(key@, value@));
        }
        i = i + 1;
    }
    proof {
        data.lemma_order();
        assert(order.take(n as int) =~= order);
    }
    out.as_str().as_bytes_vec()
}

/// The log's line for a key that was set.
pub open spec fn set_line(key: Seq<char>, value: Seq<char>) -> Seq<char> {
    "SET "@ + key + " "@ + value + "\n"@
}

/// The log's line for a key that was deleted.
pub open spec fn del_line(key: Seq<char>) -> Seq<char> {
    "DEL "@ + key + "\n"@
}

/// The log's line for a table that was emptied.
pub open spec fn flush_line() -> Seq<char> {
    "FLUSHDB\n"@
}

/// What is appended to a log for a line. Where the log does not end with a line end,
/// one comes first, so that the line stands by itself.
pub open spec fn logged(torn: bool, line: Seq<char>) -> Seq<u8> {
    if torn {
        encode_utf8("\n"@ + line)
    } else {
        encode_utf8(line)
    }
}

/// What is appended to a log for a line.
pub fn log_bytes(torn: bool, line: &str) -> (r: Vec<u8>)
    ensures
        r@ == logged(torn, line@),
{
    if torn {
        text::concat("\n", line).as_str().as_bytes_vec()
    } else {
        line.as_bytes_vec()
    }
}

/// Whether the log ends in the middle of a line.
pub fn is_torn(log: &[u8]) -> (r: bool)
    ensures
        r == !lines::terminated(log@),
{
    log.len() > 0 && log[log.len() - 1] != NEWLINE
}

/// The log's line for a key that was set.
pub fn format_set(key: &str, value: &str) -> (r: String)
    ensures
        r@ == set_line(key@, value@),
{
    let mut out: String = text::concat("SET ", key);
    out.append(" ");
    out.append(value);
    out.append("\n");
    out
}

/// The log's line for a key that was deleted.
pub fn format_del(key: &str) -> (r: String)
    ensures
        r@ == del_line(key@),
{
    let mut out: String = text::concat("DEL ", key);
    out.append("\n");
    out
}

} // verus!
