//! What clients can write, verb by verb: the laws of the request grammar.
//!
//! Every line that is not blank is white space, a first word, and the rest. White
//! space in front does not matter, and neither does the case of the word, so that
//! these laws are about lines that begin with the verb in capitals.

use vstd::prelude::*;
use vstd::string::*;
use crate::command;
use crate::command::{Command, CommandView};
use crate::text;
use crate::text::Separator;

verus! {

/// Whether the text is white space only.
pub open spec fn blank(s: Seq<char>) -> bool {
    forall|j: int| 0 <= j < s.len() ==> text::is_white_space(s[j])
}

/// Whether the text holds no white space.
pub open spec fn word(s: Seq<char>) -> bool {
    forall|j: int| 0 <= j < s.len() ==> !text::is_white_space(s[j])
}

/// Whether the text can stand after a word: it is empty, or begins with white space.
pub open spec fn after_word(s: Seq<char>) -> bool {
    s.len() > 0 ==> text::is_white_space(s[0])
}

/// What a line that parses asks for.
pub open spec fn asks(line: Seq<char>, cmd: CommandView) -> bool {
    command::parsed(line) == Ok::<CommandView, Seq<char>>(cmd)
}

/// What a line is refused with.
pub open spec fn refused(line: Seq<char>, why: Seq<char>) -> bool {
    command::parsed(line) == Err::<CommandView, Seq<char>>(why)
}

/// The verbs.
pub open spec fn is_verb(s: Seq<char>) -> bool {
    s == "GET"@ || s == "SET"@ || s == "DEL"@ || s == "EXISTS"@ || s == "KEYS"@ || s == "DBSIZE"@
        || s == "PING"@ || s == "FLUSHDB"@ || s == "SAVE"@ || s == "INFO"@
}

/// A command and its mathematical value say the same, and so do a refusal and its
/// text.
pub proof fn law_views_of_commands(cmd: Command, why: String)
    ensures
        match cmd {
            Command::Get { key } => cmd@ == (CommandView::Get { key: key@ }),
            Command::SetKey { key, value } => cmd@ == (CommandView::SetKey {
                key: key@,
                value: value@,
            }),
            Command::Del { key } => cmd@ == (CommandView::Del { key: key@ }),
            Command::Exists { key } => cmd@ == (CommandView::Exists { key: key@ }),
            Command::Keys { pattern } => cmd@ == (CommandView::Keys { pattern: pattern@ }),
            Command::Dbsize => cmd@ == CommandView::Dbsize,
            Command::Ping { msg: Some(m) } => cmd@ == (CommandView::Ping { msg: Some(m@) }),
            Command::Ping { msg: None } => cmd@ == (CommandView::Ping { msg: None }),
            Command::Flushdb => cmd@ == CommandView::Flushdb,
            Command::Save => cmd@ == CommandView::Save,
            Command::Info => cmd@ == CommandView::Info,
        },
        command::parse_view(Ok(cmd)) == Ok::<CommandView, Seq<char>>(cmd@),
        command::parse_view(Err(why)) == Err::<CommandView, Seq<char>>(why@),
{
}

/// The verbs are words in capitals, and no two are the same.
proof fn lemma_verbs()
    ensures
        forall|v: Seq<char>| #[trigger]
            is_verb(v) ==> word(v) && v.len() > 0 && text::uppercase(v) == v,
        "GET"@ != "SET"@,
        "GET"@ != "DEL"@,
        "SET"@ != "DEL"@,
        "GET"@.len() == 3,
        "SET"@.len() == 3,
        "DEL"@.len() == 3,
        "EXISTS"@.len() == 6,
        "DBSIZE"@.len() == 6,
        "EXISTS"@ != "DBSIZE"@,
        "FLUSHDB"@.len() == 7,
        "KEYS"@.len() == 4,
        "PING"@.len() == 4,
        "SAVE"@.len() == 4,
        "INFO"@.len() == 4,
        "KEYS"@ != "PING"@,
        "KEYS"@ != "SAVE"@,
        "KEYS"@ != "INFO"@,
        "PING"@ != "SAVE"@,
        "PING"@ != "INFO"@,
        "SAVE"@ != "INFO"@,
{
    reveal_strlit("GET");
    reveal_strlit("SET");
    reveal_strlit("DEL");
    reveal_strlit("EXISTS");
    reveal_strlit("KEYS");
    reveal_strlit("DBSIZE");
    reveal_strlit("PING");
    reveal_strlit("FLUSHDB");
    reveal_strlit("SAVE");
    reveal_strlit("INFO");
    assert("GET"@[0] == 'G' && "SET"@[0] == 'S' && "DEL"@[0] == 'D');
    assert("EXISTS"@[0] == 'E' && "DBSIZE"@[0] == 'D');
    assert("KEYS"@[0] == 'K' && "PING"@[0] == 'P' && "SAVE"@[0] == 'S' && "INFO"@[0] == 'I');
    assert forall|v: Seq<char>| #[trigger] is_verb(v) implies word(v) && v.len() > 0
        && text::uppercase(v) == v by {
        assert forall|j: int| 0 <= j < v.len() implies 'A' <= #[trigger] v[j] <= 'Z' by {}
        text::lemma_uppercase_of_ascii(v);
        assert(text::uppercase(v) =~= v);
    }
}

/// A line of a verb with nothing behind it.
proof fn lemma_bare(verb: Seq<char>, tail: Seq<char>)
    requires
        verb.len() > 0,
        word(verb),
        blank(tail),
    ensures
        command::parsed(verb + tail) == command::parsed_parts(
            text::uppercase(verb),
            Seq::empty(),
        ),
{
    command::lemma_parsed_verb(verb, tail);
    let n = text::lemma_trimmed_end_bound(tail);
}

/// A line of a verb, an argument and the rest.
proof fn lemma_argument(
    verb: Seq<char>,
    c: char,
    arg: Seq<char>,
    tail: Seq<char>,
) -> (args: Seq<Seq<char>>)
    requires
        verb.len() > 0,
        word(verb),
        text::is_white_space(c),
        word(arg),
        after_word(tail),
        arg.len() > 0 || !blank(tail),
    ensures
        command::parsed(verb + seq![c] + arg + tail) == command::parsed_parts(
            text::uppercase(verb),
            args,
        ),
        blank(tail) ==> args == seq![arg],
        !blank(tail) ==> args == seq![arg, text::trimmed_end(tail).skip(1)],
{
    let sep = Separator::WhiteSpace;
    let full = seq![c] + arg + tail;
    let m = text::lemma_trimmed_end_bound(tail);
    let n = text::lemma_trimmed_end_bound(full);
    let k = 1 + arg.len() as int;
    assert(verb + seq![c] + arg + tail =~= verb + full);
    command::lemma_parsed_verb(verb, full);
    assert forall|j: int| 0 <= j < tail.len() implies full[k + j] == tail[j] by {}
    if blank(tail) {
        assert(m == 0) by {
            if m > 0 {
                assert(text::is_white_space(tail[m - 1]));
            }
        }
        assert(n == k) by {
            if n > k {
                assert(text::is_white_space(tail[n - 1 - k]));
            }
            if n < k {
                assert(text::is_white_space(full[k - 1]));
                assert(full[k - 1] == arg[arg.len() - 1]);
            }
        }
        assert(full.take(n).skip(1) =~= arg);
        text::lemma_pieces_of_unsplit(arg, 2, sep);
        seq![arg]
    } else {
        assert(m > 0);
        assert(n == k + m) by {
            if n < k + m {
                assert(text::is_white_space(full[k + m - 1]));
            }
            if n > k + m {
                assert(text::is_white_space(tail[n - 1 - k]));
            }
        }
        let rest = text::trimmed_end(tail).skip(1);
        assert(full.take(n).skip(1) =~= arg + seq![tail[0]] + rest);
        text::lemma_pieces_of_joined(arg, tail[0], rest, 2, sep);
        text::law_one_piece_is_the_text(rest, sep);
        let args = seq![arg, rest];
        assert(text::pieces(full.take(n).skip(1), 2, sep) =~= args);
        args
    }
}

/// `GET` asks for its first argument, the whole of it, whatever follows.
pub proof fn law_get_asks_for_its_key(c: char, key: Seq<char>, tail: Seq<char>)
    requires
        text::is_white_space(c),
        word(key),
        after_word(tail),
        key.len() > 0 || !blank(tail),
    ensures
        asks("GET"@ + seq![c] + key + tail, CommandView::Get { key }),
{
    lemma_verbs();
    assert(is_verb("GET"@));
    let args = lemma_argument("GET"@, c, key, tail);
}

/// `DEL` asks for its first argument, the whole of it, whatever follows.
pub proof fn law_del_asks_for_its_key(c: char, key: Seq<char>, tail: Seq<char>)
    requires
        text::is_white_space(c),
        word(key),
        after_word(tail),
        key.len() > 0 || !blank(tail),
    ensures
        asks("DEL"@ + seq![c] + key + tail, CommandView::Del { key }),
{
    lemma_verbs();
    assert(is_verb("DEL"@));
    let args = lemma_argument("DEL"@, c, key, tail);
}

/// `EXISTS` asks for its first argument, the whole of it, whatever follows.
pub proof fn law_exists_asks_for_its_key(c: char, key: Seq<char>, tail: Seq<char>)
    requires
        text::is_white_space(c),
        word(key),
        after_word(tail),
        key.len() > 0 || !blank(tail),
    ensures
        asks("EXISTS"@ + seq![c] + key + tail, CommandView::Exists { key }),
{
    lemma_verbs();
    assert(is_verb("EXISTS"@));
    let args = lemma_argument("EXISTS"@, c, key, tail);
}

/// `KEYS` asks for its first argument, the whole of it, whatever follows, and for
/// every key where it has none.
pub proof fn law_keys_asks_for_its_pattern(c: char, pattern: Seq<char>, tail: Seq<char>)
    requires
        text::is_white_space(c),
        word(pattern),
        after_word(tail),
    ensures
        pattern.len() > 0 || !blank(tail) ==> asks(
            "KEYS"@ + seq![c] + pattern + tail,
            CommandView::Keys { pattern },
        ),
        blank(tail) ==> asks("KEYS"@ + tail, CommandView::Keys { pattern: "*"@ }),
{
    lemma_verbs();
    assert(is_verb("KEYS"@));
    if pattern.len() > 0 || !blank(tail) {
        let args = lemma_argument("KEYS"@, c, pattern, tail);
    }
    if blank(tail) {
        lemma_bare("KEYS"@, tail);
    }
}

/// `SET` asks for its first argument with all that follows it, inner white space
/// included; only white space at the end of the line is ignored.
pub proof fn law_set_asks_for_key_and_value(
    c: char,
    key: Seq<char>,
    d: char,
    value: Seq<char>,
    pad: Seq<char>,
)
    requires
        text::is_white_space(c),
        word(key),
        text::is_white_space(d),
        value.len() > 0,
        !text::is_white_space(value.last()),
        blank(pad),
    ensures
        asks(
            "SET"@ + seq![c] + key + seq![d] + value + pad,
            CommandView::SetKey { key, value },
        ),
{
    lemma_verbs();
    assert(is_verb("SET"@));
    let tail = seq![d] + value + pad;
    lemma_last_argument(d, value, pad);
    let args = lemma_argument("SET"@, c, key, tail);
    assert("SET"@ + seq![c] + key + seq![d] + value + pad =~= "SET"@ + seq![c] + key + tail);
}

proof fn lemma_last_argument(d: char, value: Seq<char>, pad: Seq<char>)
    requires
        text::is_white_space(d),
        value.len() > 0,
        !text::is_white_space(value.last()),
        blank(pad),
    ensures
        !blank(seq![d] + value + pad),
        after_word(seq![d] + value + pad),
        text::trimmed_end(seq![d] + value + pad).skip(1) == value,
{
    let tail = seq![d] + value + pad;
    let k = 1 + value.len() as int;
    let m = text::lemma_trimmed_end_bound(tail);
    assert(tail[k - 1] == value.last());
    assert(m == k) by {
        if m > k {
            assert(text::is_white_space(pad[m - 1 - k]));
        }
    }
    assert(tail.take(m).skip(1) =~= value);
}

/// `PING` asks for its message: none, one word, or two words and what follows, with
/// one space behind the first.
pub proof fn law_ping_asks_for_its_message(
    c: char,
    first: Seq<char>,
    d: char,
    rest: Seq<char>,
    pad: Seq<char>,
)
    requires
        text::is_white_space(c),
        word(first),
        text::is_white_space(d),
        rest.len() > 0,
        !text::is_white_space(rest.last()),
        blank(pad),
    ensures
        asks("PING"@ + pad, CommandView::Ping { msg: None }),
        first.len() > 0 ==> asks(
            "PING"@ + seq![c] + first + pad,
            CommandView::Ping { msg: Some(first) },
        ),
        asks(
            "PING"@ + seq![c] + first + seq![d] + rest + pad,
            CommandView::Ping { msg: Some(first + seq![' '] + rest) },
        ),
{
    lemma_verbs();
    assert(is_verb("PING"@));
    reveal_strlit(" ");
    assert(" "@ =~= seq![' ']);
    lemma_bare("PING"@, pad);
    if first.len() > 0 {
        let args = lemma_argument("PING"@, c, first, pad);
    }
    let tail = seq![d] + rest + pad;
    lemma_last_argument(d, rest, pad);
    let args = lemma_argument("PING"@, c, first, tail);
    assert("PING"@ + seq![c] + first + seq![d] + rest + pad =~= "PING"@ + seq![c] + first + tail);
}

/// `DBSIZE`, `FLUSHDB`, `SAVE` and `INFO` take no argument: whatever follows does not
/// matter.
pub proof fn law_bare_verbs_ignore_the_rest(tail: Seq<char>)
    requires
        after_word(tail),
    ensures
        asks("DBSIZE"@ + tail, CommandView::Dbsize),
        asks("FLUSHDB"@ + tail, CommandView::Flushdb),
        asks("SAVE"@ + tail, CommandView::Save),
        asks("INFO"@ + tail, CommandView::Info),
{
    lemma_verbs();
    assert(is_verb("DBSIZE"@) && is_verb("FLUSHDB"@) && is_verb("SAVE"@) && is_verb("INFO"@));
    command::lemma_parsed_verb("DBSIZE"@, tail);
    command::lemma_parsed_verb("FLUSHDB"@, tail);
    command::lemma_parsed_verb("SAVE"@, tail);
    command::lemma_parsed_verb("INFO"@, tail);
}

/// A verb without an argument that it needs is refused with its usage.
pub proof fn law_missing_arguments_are_refused(c: char, key: Seq<char>, pad: Seq<char>)
    requires
        text::is_white_space(c),
        word(key),
        key.len() > 0,
        blank(pad),
    ensures
        refused("GET"@ + pad, "usage: GET <key>"@),
        refused("DEL"@ + pad, "usage: DEL <key>"@),
        refused("EXISTS"@ + pad, "usage: EXISTS <key>"@),
        refused("SET"@ + pad, "usage: SET <key> <value>"@),
        refused("SET"@ + seq![c] + key + pad, "usage: SET <key> <value>"@),
{
    lemma_verbs();
    assert(is_verb("GET"@) && is_verb("DEL"@) && is_verb("EXISTS"@) && is_verb("SET"@));
    lemma_bare("GET"@, pad);
    lemma_bare("DEL"@, pad);
    lemma_bare("EXISTS"@, pad);
    lemma_bare("SET"@, pad);
    let args = lemma_argument("SET"@, c, key, pad);
}

/// Of the first word only its upper case matters: two words with the same upper case,
/// followed by the same, ask for the same, or are refused alike.
pub proof fn law_only_the_upper_case_of_the_verb_matters(
    a: Seq<char>,
    b: Seq<char>,
    tail: Seq<char>,
)
    requires
        a.len() > 0,
        b.len() > 0,
        word(a),
        word(b),
        after_word(tail),
        text::uppercase(a) == text::uppercase(b),
    ensures
        command::parsed(a + tail) == command::parsed(b + tail),
{
    command::lemma_parsed_verb(a, tail);
    command::lemma_parsed_verb(b, tail);
}

/// A first word that is no verb in any letter case is refused by name, in capitals,
/// whatever follows.
pub proof fn law_other_words_are_refused(first: Seq<char>, tail: Seq<char>)
    requires
        first.len() > 0,
        word(first),
        after_word(tail),
        !is_verb(text::uppercase(first)),
    ensures
        refused(first + tail, "unknown command '"@ + text::uppercase(first) + "'"@),
{
    command::lemma_parsed_verb(first, tail);
}

/// A blank line is refused.
pub proof fn law_blank_lines_are_refused(line: Seq<char>)
    requires
        blank(line),
    ensures
        refused(line, "empty command"@),
{
    text::lemma_trimmed_at(line, line.len() as int, line.len() as int);
}

/// The laws above are about all lines: one that is not blank is white space, a word
/// that is not empty, and a rest that stands after a word.
pub proof fn law_lines_begin_with_a_word(line: Seq<char>) -> (parts: (
    Seq<char>,
    Seq<char>,
    Seq<char>,
))
    requires
        !blank(line),
    ensures
        line == parts.0 + parts.1 + parts.2,
        blank(parts.0),
        parts.1.len() > 0,
        word(parts.1),
        after_word(parts.2),
        command::parsed(line) == command::parsed(parts.1 + parts.2),
{
    let (a, b) = text::law_trimming_takes_off_white_space(line);
    assert(a < b) by {
        if a == b {
            let j = choose|j: int| 0 <= j < line.len() && !text::is_white_space(line[j]);
            assert(j < a || j >= b);
        }
    }
    let rest = line.skip(a);
    text::lemma_first_split_before(rest, Separator::WhiteSpace);
    let k = text::first_split(rest, Separator::WhiteSpace) as int;
    let before = line.take(a);
    let first = rest.take(k);
    let tail = rest.skip(k);
    assert(rest[0] == line[a]);
    assert forall|j: int| 0 <= j < first.len() implies !text::is_white_space(first[j]) by {
        assert(!Separator::WhiteSpace.splits(rest[j]));
    }
    assert(line =~= before + first + tail);
    assert(line =~= before + (first + tail) + Seq::empty());
    command::law_surrounding_white_space_is_ignored(before, first + tail, Seq::empty());
    (before, first, tail)
}

} // verus!
