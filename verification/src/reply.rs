//! Replies and their wire format.

use vstd::prelude::*;
use vstd::string::*;
use crate::text;

verus! {

/// The result of a store command, ready to be sent back to the client.
#[derive(Debug, Clone, PartialEq)]
pub enum Reply {
    /// Success without a value: `+OK` on the wire.
    Okay,
    Value(String),
    Null,
    Integer(i64),
    Error(String),
    List(Vec<String>),
}

/// A reply as a mathematical value.
pub enum ReplyView {
    /// Success without a value: `+OK` on the wire.
    Okay,
    Value(Seq<char>),
    Null,
    Integer(i64),
    Error(Seq<char>),
    List(Seq<Seq<char>>),
}

impl View for Reply {
    type V = ReplyView;

    open spec fn view(&self) -> ReplyView {
        match self {
            Reply::Okay => ReplyView::Okay,
            Reply::Value(v) => ReplyView::Value(v@),
            Reply::Null => ReplyView::Null,
            Reply::Integer(n) => ReplyView::Integer(*n),
            Reply::Error(m) => ReplyView::Error(m@),
            Reply::List(items) => ReplyView::List(text::views(items@)),
        }
    }
}

/// One value on a line of its own.
pub open spec fn value_line(v: Seq<char>) -> Seq<char> {
    "$"@ + v + "\r\n"@
}

/// The values of a list, each on a line of its own.
pub open spec fn value_lines(items: Seq<Seq<char>>) -> Seq<char>
    decreases items.len(),
{
    if items.len() == 0 {
        Seq::empty()
    } else {
        value_lines(items.drop_last()) + value_line(items.last())
    }
}

/// What is sent for a reply.
pub open spec fn encoding(r: ReplyView) -> Seq<char> {
    match r {
        ReplyView::Okay => "+OK\r\n"@,
        ReplyView::Value(v) => value_line(v),
        ReplyView::Null => "$-1\r\n"@,
        ReplyView::Integer(n) => ":"@ + text::signed_decimal(n as int) + "\r\n"@,
        ReplyView::Error(m) => "-ERR "@ + m + "\r\n"@,
        ReplyView::List(items) => "*"@ + text::decimal(items.len()) + "\r\n"@ + value_lines(items),
    }
}

impl Reply {
    /// Wire format: a simple line protocol.
    ///
    ///   +OK          success
    ///   $value       a string value
    ///   $-1          null (key not found)
    ///   :42          integer
    ///   -ERR message error
    ///   *3           a list, followed by three value lines
    pub fn encode(&self) -> (r: String)
        ensures
            r@ == encoding(self@),
    {
        match self {
            Reply::Okay => "+OK\r\n".to_owned(),
            Reply::Value(v) => framed("$", v.as_str()),
            Reply::Null => "$-1\r\n".to_owned(),
            Reply::Integer(n) => framed(":", text::signed_decimal_of(*n).as_str()),
            Reply::Error(msg) => framed("-ERR ", msg.as_str()),
            Reply::List(items) => {
                let mut out: String = framed("*", text::decimal_of(items.len() as u64).as_str());
                let ghost head = out@;
                let ghost all = text::views(items@);
                let mut i: usize = 0;
                while i < items.len()
                    invariant
                        i <= items.len(),
                        all == text::views(items@),
                        out@ == head + value_lines(all.take(i as int)),
                    decreases items.len() - i,
                {
                    proof {
                        assert(all.take(i + 1).drop_last() =~= all.take(i as int));
                    }
                    out.append(framed("$", items[i].as_str()).as_str());
                    i = i + 1;
                    proof {
                        assert(out@ =~= head + value_lines(all.take(i as int)));
                    }
                }
                proof {
                    assert(all.take(items.len() as int) =~= all);
                }
                out
            },
        }
    }
}

/// One line: the marker, the body and the line end.
fn framed(marker: &str, body: &str) -> (r: String)
    ensures
        r@ == marker@ + body@ + "\r\n"@,
{
    let mut out: String = text::concat(marker, body);
    out.append("\r\n");
    out
}

/// Every reply ends with CRLF.
pub proof fn law_replies_end_with_crlf(r: ReplyView)
    ensures
        encoding(r).len() >= 2,
        encoding(r)[encoding(r).len() - 2] == '\r',
        encoding(r).last() == '\n',
{
    reveal_strlit("+OK\r\n");
    reveal_strlit("$-1\r\n");
    reveal_strlit("\r\n");
    match r {
        ReplyView::List(items) => {
            if items.len() == 0 {
                assert(encoding(r) =~= "*"@ + text::decimal(0) + "\r\n"@);
            }
        },
        _ => {},
    }
}

/// The first character of what is sent tells the kind of reply.
pub proof fn law_first_character_tells_the_kind(r: ReplyView)
    ensures
        encoding(r).len() > 0,
        encoding(r)[0] == '+' <==> r is Okay,
        encoding(r)[0] == '$' <==> r is Value || r is Null,
        encoding(r)[0] == ':' <==> r is Integer,
        encoding(r)[0] == '-' <==> r is Error,
        encoding(r)[0] == '*' <==> r is List,
{
    reveal_strlit("+OK\r\n");
    reveal_strlit("$-1\r\n");
    reveal_strlit("$");
    reveal_strlit(":");
    reveal_strlit("-ERR ");
    reveal_strlit("*");
}

/// Two replies that are no lists are sent differently, but for null and the value
/// `-1`.
pub proof fn law_replies_can_be_told_apart(a: ReplyView, b: ReplyView)
    requires
        a !is List,
        b !is List,
        encoding(a) == encoding(b),
        !(a is Null && b == ReplyView::Value("-1"@)),
        !(b is Null && a == ReplyView::Value("-1"@)),
    ensures
        a == b,
{
    law_first_character_tells_the_kind(a);
    law_first_character_tells_the_kind(b);
    reveal_strlit("$");
    reveal_strlit(":");
    reveal_strlit("-ERR ");
    reveal_strlit("\r\n");
    reveal_strlit("$-1\r\n");
    reveal_strlit("-1");
    lemma_null_line();
    lemma_framed_tells(marker_of(a), body_of(a), body_of(b));
    if let (ReplyView::Integer(m), ReplyView::Integer(n)) = (a, b) {
        text::lemma_signed_decimal_tells(m as int, n as int);
    }
}

/// What stands before the body of a reply on the wire.
spec fn marker_of(r: ReplyView) -> Seq<char> {
    match r {
        ReplyView::Integer(_) => ":"@,
        ReplyView::Error(_) => "-ERR "@,
        _ => "$"@,
    }
}

/// The body of a reply on the wire.
spec fn body_of(r: ReplyView) -> Seq<char> {
    match r {
        ReplyView::Value(v) => v,
        ReplyView::Null => "-1"@,
        ReplyView::Integer(n) => text::signed_decimal(n as int),
        ReplyView::Error(m) => m,
        _ => Seq::empty(),
    }
}

proof fn lemma_null_line()
    ensures
        "$-1\r\n"@ == "$"@ + "-1"@ + "\r\n"@,
{
    reveal_strlit("$");
    reveal_strlit("-1");
    reveal_strlit("\r\n");
    reveal_strlit("$-1\r\n");
    assert("$-1\r\n"@ =~= "$"@ + "-1"@ + "\r\n"@);
}

proof fn lemma_framed_tells(marker: Seq<char>, a: Seq<char>, b: Seq<char>)
    ensures
        marker + a + "\r\n"@ == marker + b + "\r\n"@ ==> a == b,
{
    let x = marker + a + "\r\n"@;
    let y = marker + b + "\r\n"@;
    if x == y {
        let n = marker.len() as int;
        assert(x.len() == y.len());
        assert(x.subrange(n, n + a.len()) =~= a);
        assert(y.subrange(n, n + b.len()) =~= b);
    }
}

/// What each reply looks like on the wire. A list is another matter.
pub proof fn law_replies_on_the_wire(r: Reply)
    ensures
        match r {
            Reply::Okay => encoding(r@) == "+OK\r\n"@,
            Reply::Value(v) => encoding(r@) == "$"@ + v@ + "\r\n"@,
            Reply::Null => encoding(r@) == "$-1\r\n"@,
            Reply::Integer(n) => encoding(r@) == ":"@ + text::signed_decimal(n as int) + "\r\n"@,
            Reply::Error(m) => encoding(r@) == "-ERR "@ + m@ + "\r\n"@,
            Reply::List(items) => r@ == ReplyView::List(
                Seq::new(items@.len(), |i: int| items@[i]@),
            ),
        },
{
}

/// A list is sent as a star, its length and CRLF, and then exactly its items, each
/// as it is sent as a value, in order: the `i`-th stands from `cuts[i]` to
/// `cuts[i + 1]`.
pub proof fn law_list_lines_are_its_items(items: Seq<Seq<char>>) -> (cuts: Seq<int>)
    ensures
        cuts.len() == items.len() + 1,
        cuts[0] == 3 + text::decimal(items.len()).len(),
        encoding(ReplyView::List(items)).take(cuts[0]) == "*"@ + text::decimal(items.len())
            + "\r\n"@,
        cuts.last() == encoding(ReplyView::List(items)).len(),
        forall|i: int|
            0 <= i < items.len() ==> cuts[0] <= #[trigger] cuts[i] < cuts[i + 1] <= cuts.last()
                && encoding(ReplyView::List(items)).subrange(cuts[i], cuts[i + 1]) == encoding(
                ReplyView::Value(items[i]),
            ),
{
    reveal_strlit("*");
    reveal_strlit("\r\n");
    let head = "*"@ + text::decimal(items.len()) + "\r\n"@;
    let whole = encoding(ReplyView::List(items));
    let body = value_lines(items);
    let ends = lemma_value_lines(items);
    let cuts = Seq::new(ends.len(), |i: int| head.len() + ends[i]);
    assert(whole =~= head + body);
    assert(whole.take(head.len() as int) =~= head);
    assert forall|i: int|
        0 <= i < items.len() implies cuts[0] <= #[trigger] cuts[i] < cuts[i + 1] <= cuts.last()
        && whole.subrange(cuts[i], cuts[i + 1]) == encoding(ReplyView::Value(items[i])) by {
        assert(0 <= ends[i] < ends[i + 1] <= body.len());
        assert(whole.subrange(cuts[i], cuts[i + 1]) =~= body.subrange(ends[i], ends[i + 1]));
    }
    cuts
}

proof fn lemma_value_lines(items: Seq<Seq<char>>) -> (ends: Seq<int>)
    ensures
        ends.len() == items.len() + 1,
        ends[0] == 0,
        ends.last() == value_lines(items).len(),
        forall|i: int|
            0 <= i < items.len() ==> 0 <= #[trigger] ends[i] < ends[i + 1] <= value_lines(
                items,
            ).len() && value_lines(items).subrange(ends[i], ends[i + 1]) == value_line(items[i]),
    decreases items.len(),
{
    let all = value_lines(items);
    if items.len() == 0 {
        seq![0]
    } else {
        reveal_strlit("$");
        let before = items.drop_last();
        let head = value_lines(before);
        let shorter = lemma_value_lines(before);
        let ends = shorter.push(all.len() as int);
        assert forall|i: int| 0 <= i < items.len() implies 0 <= #[trigger] ends[i] < ends[i + 1]
            <= all.len() && all.subrange(ends[i], ends[i + 1]) == value_line(items[i]) by {
            if i < before.len() {
                assert(0 <= shorter[i] < shorter[i + 1] <= head.len());
                assert(all.subrange(ends[i], ends[i + 1]) =~= head.subrange(
                    shorter[i],
                    shorter[i + 1],
                ));
            } else {
                assert(all.subrange(ends[i], ends[i + 1]) =~= value_line(items.last()));
            }
        }
        ends
    }
}

/// A longer list is sent as the shorter one's own lines and one line more: what
/// follows the count is the same, and then comes the new item.
pub proof fn law_longer_list_has_one_line_more(items: Seq<Seq<char>>, item: Seq<char>)
    ensures
        ({
            let short = encoding(ReplyView::List(items));
            let long = encoding(ReplyView::List(items.push(item)));
            let a = 3 + text::decimal(items.len()).len() as int;
            let b = 3 + text::decimal(items.len() + 1).len() as int;
            &&& a <= short.len()
            &&& b <= long.len()
            &&& long.skip(b) == short.skip(a) + encoding(ReplyView::Value(item))
        }),
{
    reveal_strlit("*");
    reveal_strlit("\r\n");
    assert(items.push(item).drop_last() =~= items);
    let short = encoding(ReplyView::List(items));
    let long = encoding(ReplyView::List(items.push(item)));
    let a = 3 + text::decimal(items.len()).len() as int;
    let b = 3 + text::decimal(items.len() + 1).len() as int;
    assert(short.skip(a) =~= value_lines(items));
    assert(long.skip(b) =~= value_lines(items) + value_line(item));
}

/// A list is sent as its length and one value line per item, in order: a list
/// with one more item is sent as the longer length and one more value line.
pub proof fn law_list_is_a_count_and_its_items(items: Seq<Seq<char>>, item: Seq<char>)
    ensures
        encoding(ReplyView::List(Seq::empty())) == "*"@ + text::decimal(0) + "\r\n"@,
        encoding(ReplyView::List(items.push(item))) == "*"@ + text::decimal(items.len() + 1)
            + "\r\n"@ + value_lines(items) + encoding(ReplyView::Value(item)),
{
    assert(items.push(item).drop_last() =~= items);
    assert(encoding(ReplyView::List(Seq::empty())) =~= "*"@ + text::decimal(0) + "\r\n"@);
    assert(encoding(ReplyView::List(items.push(item))) =~= "*"@ + text::decimal(items.len() + 1)
        + "\r\n"@ + value_lines(items) + encoding(ReplyView::Value(item)));
}

} // verus!
