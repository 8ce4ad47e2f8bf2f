//! What the commands of the store promise together.

use vstd::prelude::*;
use vstd::utf8::*;
use crate::command::CommandView;
use crate::config;
use crate::glob;
use crate::journal;
use crate::reply::ReplyView;
use crate::store;
use crate::store::{OpView, OriginView, OutcomeView, PendingView, StepView, StoreView};
use crate::table;
use crate::text;

verus! {

/// A command that only reads leaves the store as it was, and all but `SAVE` are
/// answered at once, without touching a file.
pub proof fn law_reads_change_nothing(
    pre: StoreView,
    cmd: CommandView,
    post: StoreView,
    step: StepView,
)
    requires
        store::executes(pre, cmd, post, step),
        !store::mutates(cmd),
    ensures
        post == pre,
        cmd !is Save ==> step is Finished,
{
}

/// File operations, however they go, never change the table, and they never
/// change where it is stored or how often a snapshot is due.
pub proof fn law_file_operations_leave_the_table(
    pre: StoreView,
    pending: PendingView,
    outcome: OutcomeView,
    post: StoreView,
    step: StepView,
)
    requires
        store::resumes(pre, pending, outcome, post, step),
    ensures
        post.data == pre.data,
        post.dir == pre.dir,
        post.threshold == pre.threshold,
{
}

/// `GET` after `SET` gives the value back, whatever the key held before.
pub proof fn law_get_after_set(
    pre: StoreView,
    key: Seq<char>,
    value: Seq<char>,
    set: StoreView,
    set_step: StepView,
    mid: StoreView,
    post: StoreView,
    step: StepView,
)
    requires
        store::executes(pre, CommandView::SetKey { key, value }, set, set_step),
        mid.data == set.data,
        store::executes(mid, CommandView::Get { key }, post, step),
    ensures
        step == StepView::Finished(ReplyView::Value(value)),
{
}

/// A command about one key does not change what `GET` answers for another.
pub proof fn law_other_keys_are_untouched(
    pre: StoreView,
    cmd: CommandView,
    key: Seq<char>,
    other: Seq<char>,
    changed: StoreView,
    changed_step: StepView,
    mid: StoreView,
    before: StoreView,
    before_step: StepView,
    after: StoreView,
    after_step: StepView,
)
    requires
        other != key,
        cmd matches CommandView::SetKey { key: k, value } && k == key || cmd
            == (CommandView::Del { key }),
        store::executes(pre, CommandView::Get { key: other }, before, before_step),
        store::executes(pre, cmd, changed, changed_step),
        mid.data == changed.data,
        store::executes(mid, CommandView::Get { key: other }, after, after_step),
    ensures
        after_step == before_step,
{
}

/// `EXISTS` answers 1 where `GET` answers with a value, and 0 where it answers null.
pub proof fn law_exists_where_get_finds(
    s: StoreView,
    key: Seq<char>,
    got: StoreView,
    got_step: StepView,
    asked: StoreView,
    asked_step: StepView,
)
    requires
        store::executes(s, CommandView::Get { key }, got, got_step),
        store::executes(s, CommandView::Exists { key }, asked, asked_step),
    ensures
        asked_step == StepView::Finished(
            store::flag(got_step != StepView::Finished(ReplyView::Null)),
        ),
{
}

/// The reply that a step leads to once its file operations are over, however they
/// go. A snapshot that a client asked for is answered by how it went.
pub open spec fn reply_of(step: StepView) -> Option<ReplyView> {
    match step {
        StepView::Finished(reply) => Some(reply),
        StepView::Io { op: _, then } => match then {
            PendingView::LogWrite(reply) => Some(reply),
            PendingView::LogFlush(reply) => Some(reply),
            PendingView::SnapshotWrite(origin) => settled_reply(origin),
            PendingView::SnapshotRename(origin) => settled_reply(origin),
            PendingView::LogTruncation(origin) => settled_reply(origin),
        },
    }
}

/// The reply to a command that asked for a snapshot, where it does not depend on
/// how that goes.
pub open spec fn settled_reply(origin: OriginView) -> Option<ReplyView> {
    match origin {
        OriginView::Auto(reply) => Some(reply),
        OriginView::Save => None,
    }
}

/// A failure to log or to take an automatic snapshot never reaches the client:
/// the reply to the command is settled from its first step on.
pub proof fn law_replies_do_not_depend_on_files(
    pre: StoreView,
    step: StepView,
    outcome: OutcomeView,
    post: StoreView,
    next: StepView,
)
    requires
        step is Io,
        reply_of(step) is Some,
        store::resumes(pre, step->then, outcome, post, next),
    ensures
        reply_of(next) == reply_of(step),
{
}

/// `DEL` answers whether the key was there. After it the key is gone: `GET`
/// answers null, and a second `DEL` answers 0.
pub proof fn law_deleted_keys_are_gone(
    pre: StoreView,
    key: Seq<char>,
    deleted: StoreView,
    deleted_step: StepView,
    mid: StoreView,
    got: StoreView,
    got_step: StepView,
    again: StoreView,
    again_step: StepView,
)
    requires
        store::executes(pre, CommandView::Del { key }, deleted, deleted_step),
        mid.data == deleted.data,
        store::executes(mid, CommandView::Get { key }, got, got_step),
        store::executes(mid, CommandView::Del { key }, again, again_step),
    ensures
        reply_of(deleted_step) == Some(store::flag(pre.data.contains_key(key))),
        got_step == StepView::Finished(ReplyView::Null),
        again == mid,
        again_step == StepView::Finished(store::flag(false)),
{
}

/// After `FLUSHDB` there are no keys.
pub proof fn law_flushed_store_is_empty(
    pre: StoreView,
    flushed: StoreView,
    flushed_step: StepView,
    mid: StoreView,
    sized: StoreView,
    sized_step: StepView,
    listed: StoreView,
    listed_step: StepView,
    pattern: Seq<char>,
)
    requires
        store::executes(pre, CommandView::Flushdb, flushed, flushed_step),
        mid.data == flushed.data,
        store::executes(mid, CommandView::Dbsize, sized, sized_step),
        store::executes(mid, CommandView::Keys { pattern }, listed, listed_step),
    ensures
        reply_of(flushed_step) == Some(ReplyView::Okay),
        sized_step == StepView::Finished(ReplyView::Integer(0)),
        listed_step == StepView::Finished(ReplyView::List(Seq::empty())),
{
    let wanted = mid.data.dom().filter(|k: Seq<char>| glob::matches_glob(pattern, k));
    let items = listed_step->Finished_0->List_0;
    assert(wanted =~= Set::empty());
    if items.len() > 0 {
        assert(items.to_set().contains(items[0]));
    }
    assert(items =~= Seq::empty());
}

/// `KEYS *` lists every key once, so it lists as many keys as there are, which is
/// what `DBSIZE` answers.
pub proof fn law_keys_star_lists_every_key(s: StoreView, listed: StoreView, step: StepView)
    requires
        store::executes(s, CommandView::Keys { pattern: "*"@ }, listed, step),
    ensures
        step matches StepView::Finished(ReplyView::List(items)) && table::lists(
            items,
            s.data.dom(),
        ) && items.len() == s.data.len(),
{
    let wanted = s.data.dom().filter(|k: Seq<char>| glob::matches_glob("*"@, k));
    assert forall|k: Seq<char>| wanted.contains(k) <==> s.data.dom().contains(k) by {
        glob::law_star_matches_everything(k);
    }
    assert(wanted =~= s.data.dom());
    let items = step->Finished_0->List_0;
    items.unique_seq_to_set();
}

/// Whether fewer log entries are counted than make a snapshot due, or a snapshot
/// is on its way.
pub open spec fn below_threshold(s: StoreView, step: StepView) -> bool {
    s.since < s.threshold || (step matches StepView::Io { op: _, then } && (then is SnapshotWrite
        || then is SnapshotRename || then is LogTruncation) && s.threshold > 0)
}

/// The log does not grow without bound: a command that began below the threshold
/// is below it again when it is finished, or a snapshot has failed.
pub proof fn law_commands_stay_below_the_threshold(
    pre: StoreView,
    cmd: CommandView,
    post: StoreView,
    step: StepView,
)
    requires
        pre.since < pre.threshold,
        store::executes(pre, cmd, post, step),
    ensures
        below_threshold(post, step),
        step is Finished ==> post.since < post.threshold,
{
}

/// A file operation keeps that so, unless a snapshot fails by it.
pub proof fn law_file_operations_stay_below_the_threshold(
    pre: StoreView,
    step: StepView,
    outcome: OutcomeView,
    post: StoreView,
    next: StepView,
)
    requires
        below_threshold(pre, step),
        step is Io,
        outcome is Failed ==> step->then is LogWrite || step->then is LogFlush,
        store::resumes(pre, step->then, outcome, post, next),
    ensures
        below_threshold(post, next),
        next is Finished ==> post.since < post.threshold,
{
}

/// A store without files is empty, logs nothing, and counts from 0 to the default
/// threshold.
pub proof fn law_store_without_files()
    ensures
        forall|k: Seq<char>| !store::without_files().data.contains_key(k),
        !store::without_files().logging,
        store::without_files().since == 0,
        store::without_files().threshold == 1000,
{
}

/// `GET` answers with the key's value, and with null where there is none.
pub proof fn law_get_answers_the_value(
    pre: StoreView,
    key: Seq<char>,
    post: StoreView,
    step: StepView,
)
    requires
        store::executes(pre, CommandView::Get { key }, post, step),
    ensures
        pre.data.contains_key(key) ==> step == StepView::Finished(
            ReplyView::Value(pre.data[key]),
        ),
        !pre.data.contains_key(key) ==> step == StepView::Finished(ReplyView::Null),
{
}

/// `EXISTS` answers 1 where the key is there, and 0 where it is not.
pub proof fn law_exists_answers_one_or_zero(
    pre: StoreView,
    key: Seq<char>,
    post: StoreView,
    step: StepView,
)
    requires
        store::executes(pre, CommandView::Exists { key }, post, step),
    ensures
        pre.data.contains_key(key) ==> step == StepView::Finished(ReplyView::Integer(1)),
        !pre.data.contains_key(key) ==> step == StepView::Finished(ReplyView::Integer(0)),
{
}

/// A change to the table changes what it says and nothing else about the store but
/// the count: `SET` gives one key a value, `DEL` takes one key out, `FLUSHDB` takes
/// out every key.
pub proof fn law_changes_do_what_they_say(
    pre: StoreView,
    cmd: CommandView,
    post: StoreView,
    step: StepView,
)
    requires
        store::executes(pre, cmd, post, step),
    ensures
        cmd matches CommandView::SetKey { key, value } ==> {
            &&& post.data == pre.data.insert(key, value)
            &&& reply_of(step) == Some(ReplyView::Okay)
        },
        cmd matches CommandView::Del { key } ==> {
            &&& post.data == pre.data.remove(key)
            &&& reply_of(step) == Some(
                ReplyView::Integer(
                    if pre.data.contains_key(key) {
                        1
                    } else {
                        0
                    },
                ),
            )
        },
        cmd is Flushdb ==> {
            &&& post.data == Map::<Seq<char>, Seq<char>>::empty()
            &&& reply_of(step) == Some(ReplyView::Okay)
        },
        post.dir == pre.dir,
        post.threshold == pre.threshold,
        post.logging == pre.logging,
        post.torn == pre.torn,
        pre.logging ==> post.since == pre.since,
{
    if let CommandView::Del { key } = cmd {
        if !pre.data.contains_key(key) {
            assert(pre.data.remove(key) =~= pre.data);
        }
    }
}

/// `KEYS` with any pattern lists a key exactly if it is in the table and the pattern
/// covers it, and lists it once.
pub proof fn law_keys_lists_what_the_pattern_covers(
    pre: StoreView,
    pattern: Seq<char>,
    post: StoreView,
    step: StepView,
) -> (items: Seq<Seq<char>>)
    requires
        store::executes(pre, CommandView::Keys { pattern }, post, step),
    ensures
        step == StepView::Finished(ReplyView::List(items)),
        forall|k: Seq<char>| #[trigger]
            items.contains(k) <==> pre.data.contains_key(k) && glob::matches_glob(pattern, k),
        forall|i: int, j: int|
            0 <= i < j < items.len() ==> #[trigger] items[i] != #[trigger] items[j],
{
    let items = step->Finished_0->List_0;
    let wanted = pre.data.dom().filter(|k: Seq<char>| glob::matches_glob(pattern, k));
    assert forall|k: Seq<char>| #[trigger]
        items.contains(k) <==> pre.data.contains_key(k) && glob::matches_glob(pattern, k) by {
        assert(items.to_set().contains(k) <==> wanted.contains(k));
    }
    items
}

/// `DBSIZE` answers with the number of keys.
pub proof fn law_dbsize_counts_the_keys(pre: StoreView, post: StoreView, step: StepView)
    requires
        store::executes(pre, CommandView::Dbsize, post, step),
        pre.data.len() <= i64::MAX,
    ensures
        step matches StepView::Finished(ReplyView::Integer(n)) && n == pre.data.len(),
{
}

/// `PING` answers with its message, and with PONG where it has none.
pub proof fn law_ping_answers_its_message(
    pre: StoreView,
    msg: Seq<char>,
    post: StoreView,
    step: StepView,
    bare: StepView,
)
    requires
        store::executes(pre, CommandView::Ping { msg: Some(msg) }, post, step),
        store::executes(pre, CommandView::Ping { msg: None }, post, bare),
    ensures
        step == StepView::Finished(ReplyView::Value(msg)),
        bare == StepView::Finished(ReplyView::Value("PONG"@)),
{
}

/// `INFO` answers with three lines: the number of keys, the log entries since the last
/// snapshot, and the threshold, each behind its name.
pub proof fn law_info_tells_the_numbers(pre: StoreView, post: StoreView, step: StepView)
    requires
        store::executes(pre, CommandView::Info, post, step),
    ensures
        step == StepView::Finished(
            ReplyView::Value(
                "keys:"@ + text::decimal(pre.data.len()) + "\naol_since_snapshot:"@
                    + text::decimal(pre.since as nat) + "\nsnapshot_threshold:"@
                    + text::decimal(pre.threshold as nat),
            ),
        ),
{
}

/// What a change appends to the log: its own line, behind the end of a torn line. A
/// `DEL` of a key that is not there appends nothing.
pub proof fn law_changes_are_logged(
    pre: StoreView,
    cmd: CommandView,
    post: StoreView,
    step: StepView,
)
    requires
        pre.logging,
        store::executes(pre, cmd, post, step),
    ensures
        ({
            let close = if pre.torn {
                seq!['\n']
            } else {
                Seq::empty()
            };
            &&& cmd matches CommandView::SetKey { key, value } ==> appends(
                step,
                close + "SET "@ + key + " "@ + value + "\n"@,
            )
            &&& cmd matches CommandView::Del { key } ==> if pre.data.contains_key(key) {
                appends(step, close + "DEL "@ + key + "\n"@)
            } else {
                step is Finished
            }
            &&& cmd is Flushdb ==> appends(step, close + "FLUSHDB\n"@)
        }),
{
    reveal_strlit("\n");
    let close: Seq<char> = if pre.torn {
        seq!['\n']
    } else {
        Seq::empty()
    };
    assert("\n"@ =~= seq!['\n']);
    match cmd {
        CommandView::SetKey { key, value } => {
            let line = "SET "@ + key + " "@ + value + "\n"@;
            assert(close + "SET "@ + key + " "@ + value + "\n"@ =~= close + line);
            assert(Seq::<char>::empty() + line =~= line);
        },
        CommandView::Del { key } => {
            let line = "DEL "@ + key + "\n"@;
            assert(close + "DEL "@ + key + "\n"@ =~= close + line);
            assert(Seq::<char>::empty() + line =~= line);
        },
        CommandView::Flushdb => {
            assert(Seq::<char>::empty() + "FLUSHDB\n"@ =~= "FLUSHDB\n"@);
        },
        _ => {},
    }
}

/// A step that appends a text to the log, and waits for that.
pub open spec fn appends(step: StepView, line: Seq<char>) -> bool {
    &&& step matches StepView::Io { op, then }
    &&& op == (OpView::WriteLog { bytes: encode_utf8(line) })
    &&& then is LogWrite
}

/// A log line that was written is flushed at once; one that could not be written is
/// not, and not counted either.
pub proof fn law_written_lines_are_flushed(
    pre: StoreView,
    reply: ReplyView,
    outcome: OutcomeView,
    post: StoreView,
    step: StepView,
)
    requires
        store::resumes(pre, PendingView::LogWrite(reply), outcome, post, step),
    ensures
        post.since == pre.since,
        post.logging == pre.logging,
        post.torn <==> outcome is Failed,
        outcome is Failed ==> step == StepView::Finished(reply),
        outcome !is Failed ==> step == (StepView::Io {
            op: OpView::FlushLog,
            then: PendingView::LogFlush(reply),
        }),
{
}

/// The step that begins a snapshot: the table goes to the temporary file.
pub open spec fn snapshot_begins(s: StoreView, origin: OriginView, step: StepView) -> bool {
    &&& step matches StepView::Io { op, then }
    &&& op matches OpView::WriteFile { path, bytes }
    &&& path == config::snapshot_tmp_file(s.dir)
    &&& journal::is_snapshot(bytes, s.data)
    &&& then == PendingView::SnapshotWrite(origin)
}

/// A log entry is counted once it was flushed, whether or not that failed. Where the
/// count reaches the threshold a snapshot begins, and nowhere else.
pub proof fn law_flushed_lines_are_counted(
    pre: StoreView,
    reply: ReplyView,
    outcome: OutcomeView,
    post: StoreView,
    step: StepView,
)
    requires
        pre.since < u64::MAX,
        store::resumes(pre, PendingView::LogFlush(reply), outcome, post, step),
    ensures
        post.since == pre.since + 1,
        post.logging == pre.logging,
        post.torn == pre.torn,
        post.since >= post.threshold ==> snapshot_begins(post, OriginView::Auto(reply), step),
        post.since < post.threshold ==> step == StepView::Finished(reply),
{
}

/// Without a log a change is counted at once, and the same goes for the threshold.
pub proof fn law_changes_are_counted_without_a_log(
    pre: StoreView,
    cmd: CommandView,
    post: StoreView,
    step: StepView,
)
    requires
        !pre.logging,
        pre.since < u64::MAX,
        store::executes(pre, cmd, post, step),
        cmd is SetKey || cmd is Flushdb || (cmd matches CommandView::Del { key }
            && pre.data.contains_key(key)),
    ensures
        post.since == pre.since + 1,
        post.since < post.threshold ==> step is Finished,
        post.since >= post.threshold ==> exists|reply: ReplyView| #[trigger]
            snapshot_begins(post, OriginView::Auto(reply), step),
{
    if post.since >= post.threshold {
        let reply = reply_of(step)->Some_0;
        assert(snapshot_begins(post, OriginView::Auto(reply), step));
    }
}

/// A command that ran from one step to the next by file operations: `states[i]` and
/// `steps[i]` are what there was after `i` outcomes.
pub open spec fn chain(
    states: Seq<StoreView>,
    steps: Seq<StepView>,
    outcomes: Seq<OutcomeView>,
) -> bool {
    &&& states.len() == outcomes.len() + 1
    &&& steps.len() == outcomes.len() + 1
    &&& forall|i: int|
        0 <= i < outcomes.len() ==> #[trigger] steps[i] is Io && store::resumes(
            states[i],
            steps[i]->then,
            outcomes[i],
            states[i + 1],
            steps[i + 1],
        )
}

/// A snapshot from its first step to its end, with whatever outcomes: the temporary
/// file is written, renamed over the snapshot, and the log is truncated, in this
/// order. It ends before that only with a failure, and then the count stays; once all
/// three were done the count is 0. A command that reached the threshold is answered
/// as if nothing had happened; `SAVE` is answered by how it went.
pub proof fn law_snapshots_run_to_their_end(
    origin: OriginView,
    states: Seq<StoreView>,
    steps: Seq<StepView>,
    outcomes: Seq<OutcomeView>,
)
    requires
        chain(states, steps, outcomes),
        snapshot_begins(states[0], origin, steps[0]),
        steps.last() is Finished,
    ensures
        1 <= outcomes.len() <= 3,
        forall|i: int| 0 <= i < outcomes.len() - 1 ==> #[trigger] outcomes[i] !is Failed,
        outcomes.len() < 3 ==> outcomes.last() is Failed,
        outcomes.len() >= 2 ==> steps[1]->op == (OpView::Rename {
            from: config::snapshot_tmp_file(states[0].dir),
            to: config::snapshot_file(states[0].dir),
        }),
        outcomes.len() >= 3 ==> steps[2]->op == (OpView::TruncateLog {
            path: config::aol_file(states[0].dir),
        }),
        states.last().data == states[0].data,
        match outcomes.last() {
            OutcomeView::Failed(why) => {
                &&& states.last().since == states[0].since
                &&& steps.last() == StepView::Finished(
                    match origin {
                        OriginView::Auto(reply) => reply,
                        OriginView::Save => ReplyView::Error("snapshot failed: "@ + why),
                    },
                )
            },
            last => {
                &&& states.last().since == 0
                &&& last is Done ==> states.last().logging && !states.last().torn
                &&& last is Absent ==> states.last().logging == states[0].logging
                    && states.last().torn == states[0].torn
                &&& steps.last() == StepView::Finished(
                    match origin {
                        OriginView::Auto(reply) => reply,
                        OriginView::Save => ReplyView::Okay,
                    },
                )
            },
        },
{
    let n = outcomes.len();
    assert(n > 0) by {
        if n == 0 {
            assert(steps.last() == steps[0]);
        }
    }
    assert(steps[0] is Io);
    if !(outcomes[0] is Failed) {
        assert(n > 1) by {
            if n == 1 {
                assert(steps.last() == steps[1]);
            }
        }
        assert(steps[1] is Io);
        if !(outcomes[1] is Failed) {
            assert(n > 2) by {
                if n == 2 {
                    assert(steps.last() == steps[2]);
                }
            }
            assert(steps[2] is Io);
            assert(n == 3) by {
                if n > 3 {
                    assert(steps[3] is Io);
                }
            }
        } else {
            assert(n == 2) by {
                if n > 2 {
                    assert(steps[2] is Io);
                }
            }
        }
    } else {
        assert(n == 1) by {
            if n > 1 {
                assert(steps[1] is Io);
            }
        }
    }
}

/// `SAVE` answers +OK only after a snapshot of the table was written, renamed over the
/// old one, and the log truncated. Its first step writes the snapshot to the temporary
/// file, for every store; and it is finished at once for none.
pub proof fn law_save_is_answered_after_the_snapshot(
    pre: StoreView,
    states: Seq<StoreView>,
    steps: Seq<StepView>,
    outcomes: Seq<OutcomeView>,
)
    requires
        chain(states, steps, outcomes),
        store::executes(pre, CommandView::Save, states[0], steps[0]),
    ensures
        states[0] == pre,
        snapshot_begins(pre, OriginView::Save, steps[0]),
        steps.last() == StepView::Finished(ReplyView::Okay) ==> {
            &&& outcomes.len() == 3
            &&& forall|i: int| 0 <= i < 3 ==> #[trigger] outcomes[i] !is Failed
            &&& steps[1]->op == (OpView::Rename {
                from: config::snapshot_tmp_file(pre.dir),
                to: config::snapshot_file(pre.dir),
            })
            &&& steps[2]->op == (OpView::TruncateLog { path: config::aol_file(pre.dir) })
            &&& states.last().data == pre.data
            &&& states.last().since == 0
        },
{
    if steps.last() == StepView::Finished(ReplyView::Okay) {
        law_snapshots_run_to_their_end(OriginView::Save, states, steps, outcomes);
    }
}

} // verus!
