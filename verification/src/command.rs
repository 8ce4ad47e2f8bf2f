//! Client commands and their grammar.

use vstd::prelude::*;
use vstd::slice::slice_subrange;
use vstd::string::*;
use crate::text;
use crate::text::Separator;

verus! {

/// A parsed client command.
#[derive(Debug, Clone, PartialEq)]
pub enum Command {
    Get { key: String },
    SetKey { key: String, value: String },
    Del { key: String },
    Exists { key: String },
    Keys { pattern: String },
    Dbsize,
    Ping { msg: Option<String> },
    Flushdb,
    Save,
    Info,
}

/// A command as a mathematical value.
pub enum CommandView {
    Get { key: Seq<char> },
    SetKey { key: Seq<char>, value: Seq<char> },
    Del { key: Seq<char> },
    Exists { key: Seq<char> },
    Keys { pattern: Seq<char> },
    Dbsize,
    Ping { msg: Option<Seq<char>> },
    Flushdb,
    Save,
    Info,
}

impl View for Command {
    type V = CommandView;

    open spec fn view(&self) -> CommandView {
        match self {
            Command::Get { key } => CommandView::Get { key: key@ },
            Command::SetKey { key, value } => CommandView::SetKey { key: key@, value: value@ },
            Command::Del { key } => CommandView::Del { key: key@ },
            Command::Exists { key } => CommandView::Exists { key: key@ },
            Command::Keys { pattern } => CommandView::Keys { pattern: pattern@ },
            Command::Dbsize => CommandView::Dbsize,
            Command::Ping { msg: Some(m) } => CommandView::Ping { msg: Some(m@) },
            Command::Ping { msg: None } => CommandView::Ping { msg: None },
            Command::Flushdb => CommandView::Flushdb,
            Command::Save => CommandView::Save,
            Command::Info => CommandView::Info,
        }
    }
}

/// The view of what parsing returns.
pub open spec fn parse_view(r: Result<Command, String>) -> Result<CommandView, Seq<char>> {
    match r {
        Ok(cmd) => Ok(cmd@),
        Err(msg) => Err(msg@),
    }
}

/// The command that a line asks for, or why it asks for none.
///
/// White space around the line is ignored. The first word, in upper case, is the
/// verb. At most two arguments follow, separated by single white space
/// characters; the second is all that is left of the line.
pub open spec fn parsed(line: Seq<char>) -> Result<CommandView, Seq<char>> {
    let body = text::trimmed(line);
    if body.len() == 0 {
        Err("empty command"@)
    } else {
        let parts = text::pieces(body, 3, Separator::WhiteSpace);
        parsed_parts(text::uppercase(parts[0]), parts.skip(1))
    }
}

/// The command for a verb in upper case with its arguments.
pub open spec fn parsed_parts(verb: Seq<char>, args: Seq<Seq<char>>) -> Result<
    CommandView,
    Seq<char>,
> {
    if verb == "GET"@ {
        if args.len() < 1 {
            Err("usage: GET <key>"@)
        } else {
            Ok(CommandView::Get { key: args[0] })
        }
    } else if verb == "SET"@ {
        if args.len() < 2 {
            Err("usage: SET <key> <value>"@)
        } else {
            Ok(CommandView::SetKey { key: args[0], value: args[1] })
        }
    } else if verb == "DEL"@ {
        if args.len() < 1 {
            Err("usage: DEL <key>"@)
        } else {
            Ok(CommandView::Del { key: args[0] })
        }
    } else if verb == "EXISTS"@ {
        if args.len() < 1 {
            Err("usage: EXISTS <key>"@)
        } else {
            Ok(CommandView::Exists { key: args[0] })
        }
    } else if verb == "KEYS"@ {
        Ok(
            CommandView::Keys {
                pattern: if args.len() >= 1 {
                    args[0]
                } else {
                    "*"@
                },
            },
        )
    } else if verb == "DBSIZE"@ {
        Ok(CommandView::Dbsize)
    } else if verb == "PING"@ {
        Ok(
            CommandView::Ping {
                msg: if args.len() == 0 {
                    None
                } else if args.len() == 1 {
                    Some(args[0])
                } else {
                    Some(args[0] + " "@ + args[1])
                },
            },
        )
    } else if verb == "FLUSHDB"@ {
        Ok(CommandView::Flushdb)
    } else if verb == "SAVE"@ {
        Ok(CommandView::Save)
    } else if verb == "INFO"@ {
        Ok(CommandView::Info)
    } else {
        Err("unknown command '"@ + verb + "'"@)
    }
}

impl Command {
    /// Parses one line of client input into a command.
    pub fn parse(line: &str) -> (r: Result<Command, String>)
        ensures
            parse_view(r) == parsed(line@),
    {
        let body: &str = text::trim(line);
        if body.is_empty() {
            return Err("empty command".to_owned());
        }
        // At most three parts, so that the value of a SET keeps its spaces.
        let parts: Vec<String> = text::splitn(body, 3, Separator::WhiteSpace);
        let ghost pieces = text::pieces(body@, 3, Separator::WhiteSpace);
        proof {
            text::lemma_pieces(body@, 3, Separator::WhiteSpace);
            assert(parts@.len() == pieces.len());
            assert forall|i: int| 0 <= i < parts@.len() implies #[trigger] parts@[i]@
                == pieces[i] by {
                assert(text::views(parts@)[i] == parts@[i]@);
            }
        }
        let verb: String = text::to_uppercase(parts[0].as_str());
        let args: &[String] = slice_subrange(parts.as_slice(), 1, parts.len());
        proof {
            assert(text::views(args@) =~= pieces.skip(1));
        }
        Command::from_parts(verb.as_str(), args)
    }

    /// The command for a verb in upper case with its arguments. Of the arguments
    /// of a `PING`, the first two are the message.
    pub fn from_parts(verb: &str, args: &[String]) -> (r: Result<Command, String>)
        ensures
            parse_view(r) == parsed_parts(verb@, text::views(args@)),
    {
        proof {
            assert forall|i: int| 0 <= i < args@.len() implies #[trigger] text::views(args@)[i]
                == args@[i]@ by {}
        }
        if text::same(verb, "GET") {
            if args.len() < 1 {
                return Err("usage: GET <key>".to_owned());
            }
            Ok(Command::Get { key: args[0].clone() })
        } else if text::same(verb, "SET") {
            if args.len() < 2 {
                return Err("usage: SET <key> <value>".to_owned());
            }
            Ok(Command::SetKey { key: args[0].clone(), value: args[1].clone() })
        } else if text::same(verb, "DEL") {
            if args.len() < 1 {
                return Err("usage: DEL <key>".to_owned());
            }
            Ok(Command::Del { key: args[0].clone() })
        } else if text::same(verb, "EXISTS") {
            if args.len() < 1 {
                return Err("usage: EXISTS <key>".to_owned());
            }
            Ok(Command::Exists { key: args[0].clone() })
        } else if text::same(verb, "KEYS") {
            let pattern: String = if args.len() >= 1 {
                args[0].clone()
            } else {
                "*".to_owned()
            };
            Ok(Command::Keys { pattern })
        } else if text::same(verb, "DBSIZE") {
            Ok(Command::Dbsize)
        } else if text::same(verb, "PING") {
            let msg: Option<String> = if args.len() == 0 {
                None
            } else if args.len() == 1 {
                Some(args[0].clone())
            } else {
                let mut joined: String = text::concat(args[0].as_str(), " ");
                joined.append(args[1].as_str());
                Some(joined)
            };
            Ok(Command::Ping { msg })
        } else if text::same(verb, "FLUSHDB") {
            Ok(Command::Flushdb)
        } else if text::same(verb, "SAVE") {
            Ok(Command::Save)
        } else if text::same(verb, "INFO") {
            Ok(Command::Info)
        } else {
            let mut msg: String = text::concat("unknown command '", verb);
            msg.append("'");
            Err(msg)
        }
    }
}

/// White space around a line does not change what it asks for.
pub proof fn law_surrounding_white_space_is_ignored(
    before: Seq<char>,
    line: Seq<char>,
    after: Seq<char>,
)
    requires
        forall|j: int| 0 <= j < before.len() ==> text::is_white_space(before[j]),
        forall|j: int| 0 <= j < after.len() ==> text::is_white_space(after[j]),
    ensures
        parsed(before + line + after) == parsed(line),
{
    text::lemma_trimmed_padded(before, line, after);
}

/// A line that begins with a word: its verb is that word in upper case.
pub proof fn lemma_parsed_verb(verb: Seq<char>, tail: Seq<char>)
    requires
        verb.len() > 0,
        forall|j: int| 0 <= j < verb.len() ==> !text::is_white_space(verb[j]),
        tail.len() > 0 ==> text::is_white_space(tail[0]),
    ensures
        parsed(verb + tail) == parsed_parts(
            text::uppercase(verb),
            if text::trimmed_end(tail).len() == 0 {
                Seq::empty()
            } else {
                text::pieces(text::trimmed_end(tail).skip(1), 2, Separator::WhiteSpace)
            },
        ),
{
    let sep = Separator::WhiteSpace;
    let line = verb + tail;
    let end = text::trimmed_end(tail);
    let n = text::lemma_trimmed_end_bound(tail);
    text::lemma_trimmed_at(line, 0, verb.len() + n);
    let body = text::trimmed(line);
    assert(body =~= verb + end);
    if end.len() == 0 {
        assert(body =~= verb);
        text::lemma_pieces_of_unsplit(verb, 3, sep);
        assert(text::pieces(body, 3, sep).skip(1) =~= Seq::empty());
    } else {
        let rest = end.skip(1);
        assert(end[0] == tail[0]);
        assert(body =~= verb + seq![end[0]] + rest);
        text::lemma_pieces_of_joined(verb, end[0], rest, 3, sep);
        assert(text::pieces(body, 3, sep).skip(1) =~= text::pieces(rest, 2, sep));
    }
}

/// The verb's letter case does not matter: lines that differ only in the case of
/// ASCII letters of their first words ask for the same, or for nothing for the same
/// reason.
pub proof fn law_verbs_are_case_insensitive(
    before: Seq<char>,
    a: Seq<char>,
    b: Seq<char>,
    tail: Seq<char>,
)
    requires
        forall|j: int| 0 <= j < before.len() ==> text::is_white_space(before[j]),
        a.len() == b.len(),
        forall|j: int| 0 <= j < a.len() ==> #[trigger] text::ascii_upper(a[j])
            == text::ascii_upper(b[j]),
        forall|j: int| 0 <= j < a.len() ==> !text::is_white_space(a[j]),
        tail.len() > 0 ==> text::is_white_space(tail[0]),
    ensures
        parsed(before + a + tail) == parsed(before + b + tail),
{
    let nothing: Seq<char> = Seq::empty();
    assert(before + a + tail =~= before + (a + tail) + nothing);
    assert(before + b + tail =~= before + (b + tail) + nothing);
    text::lemma_trimmed_padded(before, a + tail, nothing);
    text::lemma_trimmed_padded(before, b + tail, nothing);
    if a.len() > 0 {
        assert forall|j: int| 0 <= j < b.len() implies !text::is_white_space(b[j]) by {
            assert(text::ascii_upper(a[j]) == text::ascii_upper(b[j]));
            assert(!text::is_white_space(a[j]));
        }
        lemma_parsed_verb(a, tail);
        lemma_parsed_verb(b, tail);
        text::lemma_uppercase_ignores_ascii_case(a, b);
    } else {
        assert(a =~= b);
    }
}

/// `SET key value` sets the key to the whole value, inner white space included.
pub proof fn law_set_keeps_the_whole_value(key: Seq<char>, value: Seq<char>)
    requires
        forall|j: int| 0 <= j < key.len() ==> !text::is_white_space(key[j]),
        value.len() > 0,
        !text::is_white_space(value.last()),
    ensures
        parsed("SET "@ + key + " "@ + value) == Ok::<_, Seq<char>>(
            CommandView::SetKey { key, value },
        ),
{
    reveal_strlit("SET");
    reveal_strlit("SET ");
    reveal_strlit(" ");
    reveal_strlit("GET");
    let verb = "SET"@;
    let tail = seq![' '] + key + seq![' '] + value;
    assert("SET "@ + key + " "@ + value =~= verb + tail);
    lemma_parsed_verb(verb, tail);
    assert(text::trimmed_end(tail) == tail);
    assert(tail.skip(1) =~= key + seq![' '] + value);
    text::lemma_pieces_of_joined(key, ' ', value, 2, Separator::WhiteSpace);
    text::lemma_uppercase_of_ascii(verb);
    assert(text::uppercase(verb) =~= verb);
    assert("GET"@[0] != verb[0]);
    let args = seq![key] + text::pieces(value, 1, Separator::WhiteSpace);
    assert(args.len() == 2 && args[0] == key && args[1] == value);
}

/// What a line can name: a key, wherever a command has one, is free of white
/// space; a value is not empty and does not end in white space; and neither holds
/// a line feed that the line did not hold.
pub proof fn law_parsed_keys_and_values(line: Seq<char>)
    ensures
        match parsed(line) {
            Ok(CommandView::SetKey { key, value }) => {
                &&& forall|j: int| 0 <= j < key.len() ==> !text::is_white_space(key[j])
                &&& value.len() > 0
                &&& !text::is_white_space(value.last())
                &&& value.contains('\n') ==> line.contains('\n')
            },
            Ok(CommandView::Get { key }) => {
                forall|j: int| 0 <= j < key.len() ==> !text::is_white_space(key[j])
            },
            Ok(CommandView::Del { key }) => {
                forall|j: int| 0 <= j < key.len() ==> !text::is_white_space(key[j])
            },
            Ok(CommandView::Exists { key }) => {
                forall|j: int| 0 <= j < key.len() ==> !text::is_white_space(key[j])
            },
            _ => true,
        },
{
    let sep = Separator::WhiteSpace;
    let body = text::trimmed(line);
    let (a, b) = text::lemma_trimmed_ends(line);
    if body.len() > 0 {
        let parts = text::pieces(body, 3, sep);
        text::lemma_pieces(body, 3, sep);
        let args = parts.skip(1);
        if args.len() >= 1 {
            assert(args[0] == parts[1]);
            assert forall|j: int| 0 <= j < args[0].len() implies !text::is_white_space(
                args[0][j],
            ) by {
                assert(!sep.splits(parts[1][j]));
            }
        }
        if args.len() == 2 {
            let value = args[1];
            assert(value == parts[2] && value == parts.last());
            assert(value.last() == body.last());
            if value.contains('\n') {
                assert(body.contains('\n'));
                let j = body.index_of('\n');
                assert(line[a + j] == '\n');
            }
        }
    }
}

} // verus!
