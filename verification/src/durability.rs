//! What is on disk while commands run: what a crash loses, and what it cannot.

use vstd::prelude::*;
use crate::command;
use crate::command::CommandView;
use crate::config;
use crate::journal;
use crate::lines;
use crate::recovery;
use crate::store;
use crate::store::{OpView, OriginView, OutcomeView, PendingView, StepView, StoreView};
use crate::text;

verus! {

/// The files, and what was appended to the log but not flushed.
pub struct Disk {
    pub files: Map<Seq<char>, Seq<u8>>,
    pub buffered: Seq<u8>,
}

/// The contents of a file, where it exists.
pub open spec fn found(files: Map<Seq<char>, Seq<u8>>, path: Seq<char>) -> Option<Seq<u8>> {
    if files.contains_key(path) {
        Some(files[path])
    } else {
        None
    }
}

/// The table that the files of a data directory hold.
pub open spec fn on_disk(files: Map<Seq<char>, Seq<u8>>, dir: Seq<char>) -> Map<
    Seq<char>,
    Seq<char>,
> {
    store::recovered(
        found(files, config::snapshot_file(dir)),
        found(files, config::aol_file(dir)),
    )
}

/// The table that the files of a data directory would hold with another log.
pub open spec fn on_disk_with(
    files: Map<Seq<char>, Seq<u8>>,
    dir: Seq<char>,
    log: Seq<u8>,
) -> Map<Seq<char>, Seq<char>> {
    store::recovered(found(files, config::snapshot_file(dir)), Some(log))
}

/// Whether the files of a data directory can be opened: the snapshot, if there is
/// one, is readable. Any log can be opened.
pub open spec fn can_be_opened(files: Map<Seq<char>, Seq<u8>>, dir: Seq<char>) -> bool {
    found(files, config::snapshot_file(dir)) matches Some(b) ==> journal::is_readable(b)
}

/// The store that opening the files of a data directory gives.
pub open spec fn opened(
    files: Map<Seq<char>, Seq<u8>>,
    dir: Seq<char>,
    threshold: u64,
) -> StoreView {
    store::opened(
        found(files, config::snapshot_file(dir)),
        found(files, config::aol_file(dir)),
        dir,
        threshold,
    )
}

/// The disk of a store that was just opened on some files. The log file is made where
/// there was none.
pub open spec fn disk_at_start(files: Map<Seq<char>, Seq<u8>>, dir: Seq<char>) -> Disk {
    Disk {
        files: if files.contains_key(config::aol_file(dir)) {
            files
        } else {
            files.insert(config::aol_file(dir), Seq::empty())
        },
        buffered: Seq::empty(),
    }
}

/// The disk after an operation that was done.
pub open spec fn performed(d: Disk, dir: Seq<char>, op: OpView) -> Disk {
    match op {
        OpView::WriteLog { bytes } => Disk { buffered: d.buffered + bytes, ..d },
        OpView::FlushLog => {
            let log = config::aol_file(dir);
            Disk {
                files: d.files.insert(log, d.files[log] + d.buffered),
                buffered: Seq::empty(),
            }
        },
        OpView::WriteFile { path, bytes } => Disk { files: d.files.insert(path, bytes), ..d },
        OpView::Rename { from, to } => Disk {
            files: d.files.remove(from).insert(to, d.files[from]),
            ..d
        },
        OpView::TruncateLog { path } => if d.files.contains_key(path) {
            Disk { files: d.files.insert(path, Seq::empty()), buffered: Seq::empty() }
        } else {
            d
        },
    }
}

/// Files that differ in one file at most.
pub open spec fn same_but_for(
    a: Map<Seq<char>, Seq<u8>>,
    b: Map<Seq<char>, Seq<u8>>,
    path: Seq<char>,
) -> bool {
    forall|other: Seq<char>| other != path ==> #[trigger] found(a, other) == found(b, other)
}

/// What a crash before, in the middle of or after an operation can leave: any
/// beginning of what goes to the log, anything in a file that is being written, and
/// a rename or a truncation done or not.
pub open spec fn crashed(
    d: Disk,
    dir: Seq<char>,
    op: OpView,
    left: Map<Seq<char>, Seq<u8>>,
) -> bool {
    let log = config::aol_file(dir);
    match op {
        OpView::WriteLog { bytes } => exists|n: int|
            0 <= n <= (d.buffered + bytes).len() && left == d.files.insert(
                log,
                d.files[log] + #[trigger] (d.buffered + bytes).take(n),
            ),
        OpView::FlushLog => exists|n: int|
            0 <= n <= d.buffered.len() && left == d.files.insert(
                log,
                d.files[log] + #[trigger] d.buffered.take(n),
            ),
        OpView::WriteFile { path, bytes: _ } => same_but_for(left, d.files, path),
        OpView::Rename { from: _, to: _ } | OpView::TruncateLog { path: _ } => left == d.files
            || left == performed(d, dir, op).files,
    }
}

/// The table after a command.
pub open spec fn effect_of(m: Map<Seq<char>, Seq<char>>, cmd: CommandView) -> Map<
    Seq<char>,
    Seq<char>,
> {
    match cmd {
        CommandView::SetKey { key, value } => m.insert(key, value),
        CommandView::Del { key } => m.remove(key),
        CommandView::Flushdb => Map::empty(),
        _ => m,
    }
}

/// Whether the log can hold what a command does.
pub open spec fn is_loggable(cmd: CommandView) -> bool {
    match cmd {
        CommandView::SetKey { key, value } => recovery::loggable(key, value),
        CommandView::Del { key } => recovery::deletable(key),
        _ => true,
    }
}

/// Whether the log can hold what a command does, and a snapshot what it sets.
pub open spec fn is_storable(cmd: CommandView) -> bool {
    &&& is_loggable(cmd)
    &&& cmd matches CommandView::SetKey { key, value } ==> recovery::storable(key, value)
}

/// Where the step begins a snapshot, it can hold the table.
pub open spec fn snapshot_can_hold(s: StoreView, step: StepView) -> bool {
    step matches StepView::Io { op, then: _ } ==> op is WriteFile ==> recovery::all_storable(
        s.data,
    )
}

/// There is a log, and the files can be opened.
pub open spec fn sound(d: Disk, s: StoreView) -> bool {
    &&& s.logging
    &&& d.files.contains_key(config::aol_file(s.dir))
    &&& can_be_opened(d.files, s.dir)
}

/// The disk holds the table of the store, and the store knows of a torn log.
pub open spec fn settled(d: Disk, s: StoreView) -> bool {
    &&& sound(d, s)
    &&& d.buffered == Seq::<u8>::empty()
    &&& s.torn || lines::terminated(d.files[config::aol_file(s.dir)])
    &&& on_disk(d.files, s.dir) == s.data
}

/// A log that ends in the middle of an entry: it holds the table `before`, with what
/// there is of the entry read as a line, or not yet.
pub open spec fn cut_short(
    before: Map<Seq<char>, Seq<char>>,
    log: Seq<u8>,
    after: Map<Seq<char>, Seq<char>>,
) -> bool {
    ||| after == before
    ||| after == journal::applied(before, journal::byte_record(lines::unfinished(log)))
}

/// The disk holds the table as it was before the command, `before`; what is about
/// to be appended to the log, `bytes`, makes it the table of the store, and a
/// beginning of it does no more than it says as a line.
pub open spec fn one_line_behind(
    d: Disk,
    before: Map<Seq<char>, Seq<char>>,
    bytes: Seq<u8>,
    s: StoreView,
) -> bool {
    let log = d.files[config::aol_file(s.dir)];
    &&& sound(d, s)
    &&& on_disk(d.files, s.dir) == before
    &&& lines::terminated(log + bytes)
    &&& on_disk_with(d.files, s.dir, log + bytes) == s.data
    &&& forall|n: int|
        0 <= n < bytes.len() ==> cut_short(
            before,
            log + #[trigger] bytes.take(n),
            on_disk_with(d.files, s.dir, log + bytes.take(n)),
        )
}

/// How the disk stands to the store in the middle of a command, before the
/// operation of its next step. `before` is the table as it was before the command.
pub open spec fn in_step(
    d: Disk,
    before: Map<Seq<char>, Seq<char>>,
    s: StoreView,
    step: StepView,
) -> bool {
    match step {
        StepView::Finished(_) => settled(d, s),
        StepView::Io { op, then } => match (op, then) {
            (OpView::WriteLog { bytes }, PendingView::LogWrite(_)) => {
                &&& d.buffered == Seq::<u8>::empty()
                &&& one_line_behind(d, before, bytes, s)
            },
            (OpView::FlushLog, PendingView::LogFlush(_)) => {
                one_line_behind(d, before, d.buffered, s)
            },
            (OpView::WriteFile { path, bytes }, PendingView::SnapshotWrite(_)) => {
                &&& settled(d, s)
                &&& recovery::all_storable(s.data)
                &&& path == config::snapshot_tmp_file(s.dir)
                &&& journal::is_snapshot(bytes, s.data)
            },
            (OpView::Rename { from, to }, PendingView::SnapshotRename(_)) => {
                &&& settled(d, s)
                &&& recovery::all_storable(s.data)
                &&& from == config::snapshot_tmp_file(s.dir)
                &&& to == config::snapshot_file(s.dir)
                &&& d.files.contains_key(from)
                &&& journal::is_snapshot(d.files[from], s.data)
            },
            (OpView::TruncateLog { path }, PendingView::LogTruncation(_)) => {
                &&& settled(d, s)
                &&& path == config::aol_file(s.dir)
                &&& d.files.contains_key(config::snapshot_file(s.dir))
                &&& journal::loaded(Map::empty(), d.files[config::snapshot_file(s.dir)]) == s.data
            },
            _ => false,
        },
    }
}

/// The table that the snapshot of a data directory holds.
spec fn base(files: Map<Seq<char>, Seq<u8>>, dir: Seq<char>) -> Map<Seq<char>, Seq<char>> {
    match found(files, config::snapshot_file(dir)) {
        Some(bytes) => journal::loaded(Map::empty(), bytes),
        None => Map::empty(),
    }
}

/// Whatever the files of a data directory hold, as long as they can be opened: the
/// store that was opened on them is settled from the start.
pub proof fn law_open_is_settled(
    files: Map<Seq<char>, Seq<u8>>,
    dir: Seq<char>,
    threshold: u64,
)
    requires
        can_be_opened(files, dir),
    ensures
        settled(disk_at_start(files, dir), opened(files, dir, threshold)),
{
    config::law_files_are_distinct(dir);
    recovery::law_empty_log_changes_nothing(base(files, dir));
}

/// What comes out of the files of a data directory can go into them again, but for
/// keys that begin with white space: a line of the log can bring one in, and a
/// snapshot cannot hold it.
pub proof fn law_opened_tables_are_storable(files: Map<Seq<char>, Seq<u8>>, dir: Seq<char>)
    requires
        forall|k: Seq<char>| #[trigger]
            on_disk(files, dir).contains_key(k) ==> recovery::begins_plainly(k),
    ensures
        recovery::all_storable(on_disk(files, dir)),
{
    let m = base(files, dir);
    if let Some(bytes) = found(files, config::snapshot_file(dir)) {
        recovery::law_loaded_entries_are_storable(bytes);
    }
    assert forall|k: Seq<char>| #[trigger] m.contains_key(k) implies recovery::loggable(
        k,
        m[k],
    ) by {
        assert(recovery::storable(k, m[k]));
    }
    if let Some(log) = found(files, config::aol_file(dir)) {
        recovery::law_replayed_entries_are_loggable(m, log);
    }
    let all = on_disk(files, dir);
    assert forall|k: Seq<char>| #[trigger] all.contains_key(k) implies recovery::storable(
        k,
        all[k],
    ) by {
        assert(recovery::begins_plainly(k));
        assert(recovery::loggable(k, all[k]));
    }
}

/// A command keeps the table storable.
pub proof fn law_storable_commands_keep_the_table_storable(
    m: Map<Seq<char>, Seq<char>>,
    cmd: CommandView,
)
    requires
        recovery::all_storable(m),
        is_storable(cmd),
    ensures
        recovery::all_storable(effect_of(m, cmd)),
{
    let after = effect_of(m, cmd);
    assert forall|k: Seq<char>| #[trigger] after.contains_key(k) implies recovery::storable(
        k,
        after[k],
    ) by {
        if m.contains_key(k) {
            assert(recovery::storable(k, m[k]));
        }
    }
}

/// Whatever a client can ask for, log and snapshot can hold.
pub proof fn law_parsed_commands_are_storable(line: Seq<char>)
    requires
        !line.contains('\n'),
    ensures
        command::parsed(line) matches Ok(cmd) ==> is_storable(cmd),
{
    command::law_parsed_keys_and_values(line);
    match command::parsed(line) {
        Ok(CommandView::SetKey { key, value }) => {
            lemma_word(key);
        },
        Ok(CommandView::Del { key }) => {
            lemma_word(key);
        },
        _ => {},
    }
}

proof fn lemma_word(key: Seq<char>)
    requires
        forall|j: int| 0 <= j < key.len() ==> !text::is_white_space(key[j]),
    ensures
        !key.contains(' '),
        !key.contains('\n'),
        key.len() > 0 ==> !text::is_white_space(key.last()),
        recovery::begins_plainly(key),
{
    if key.contains(' ') {
        let j = key.index_of(' ');
        assert(!text::is_white_space(key[j]));
    }
    if key.contains('\n') {
        let j = key.index_of('\n');
        assert(!text::is_white_space(key[j]));
    }
}

proof fn lemma_logged(
    files: Map<Seq<char>, Seq<u8>>,
    dir: Seq<char>,
    torn: bool,
    line: Seq<char>,
)
    requires
        files.contains_key(config::aol_file(dir)),
        torn || lines::terminated(files[config::aol_file(dir)]),
        !line.contains('\n'),
    ensures
        ({
            let log = files[config::aol_file(dir)];
            let bytes = journal::logged(torn, line + seq!['\n']);
            forall|n: int|
                0 <= n < bytes.len() ==> cut_short(
                    on_disk(files, dir),
                    log + #[trigger] bytes.take(n),
                    on_disk_with(files, dir, log + bytes.take(n)),
                )
        }),
{
    let log = files[config::aol_file(dir)];
    let bytes = journal::logged(torn, line + seq!['\n']);
    assert forall|n: int| 0 <= n < bytes.len() implies cut_short(
        on_disk(files, dir),
        log + #[trigger] bytes.take(n),
        on_disk_with(files, dir, log + bytes.take(n)),
    ) by {
        recovery::law_torn_append_counts_as_a_line(base(files, dir), log, torn, line, n);
    }
}

/// Whatever the files hold, say because an earlier line was torn or could not be
/// written: what a command appends to the log makes it take effect on that table,
/// and a beginning of it does no more than it says as a line.
pub proof fn law_logged_command_takes_effect(
    files: Map<Seq<char>, Seq<u8>>,
    pre: StoreView,
    cmd: CommandView,
    post: StoreView,
    step: StepView,
    bytes: Seq<u8>,
)
    requires
        files.contains_key(config::aol_file(pre.dir)),
        pre.torn || lines::terminated(files[config::aol_file(pre.dir)]),
        is_loggable(cmd),
        store::executes(pre, cmd, post, step),
        step matches StepView::Io { op: OpView::WriteLog { bytes: b }, then: _ } && b == bytes,
    ensures
        ({
            let log = files[config::aol_file(pre.dir)];
            &&& lines::terminated(log + bytes)
            &&& on_disk_with(files, pre.dir, log + bytes) == effect_of(
                on_disk(files, pre.dir),
                cmd,
            )
            &&& forall|n: int|
                0 <= n < bytes.len() ==> cut_short(
                    on_disk(files, pre.dir),
                    log + #[trigger] bytes.take(n),
                    on_disk_with(files, pre.dir, log + bytes.take(n)),
                )
        }),
{
    let log = files[config::aol_file(pre.dir)];
    let m = base(files, pre.dir);
    let torn = pre.torn;
    match cmd {
        CommandView::SetKey { key, value } => {
            recovery::law_logged_set_is_replayed(m, log, torn, key, value);
            let line = recovery::lemma_set_line(key, value);
            lemma_logged(files, pre.dir, torn, line);
        },
        CommandView::Del { key } => {
            recovery::law_logged_del_is_replayed(m, log, torn, key);
            let line = recovery::lemma_del_line(key);
            lemma_logged(files, pre.dir, torn, line);
        },
        CommandView::Flushdb => {
            recovery::law_logged_flush_is_replayed(m, log, torn);
            let line = recovery::lemma_flush_line();
            lemma_logged(files, pre.dir, torn, line);
        },
        _ => {},
    }
}

/// A command on a settled store: until its log line is flushed the disk holds the
/// table from before the command, and that line makes it the table after it.
pub proof fn law_command_begins_in_step(
    d: Disk,
    pre: StoreView,
    cmd: CommandView,
    post: StoreView,
    step: StepView,
)
    requires
        settled(d, pre),
        store::executes(pre, cmd, post, step),
        is_loggable(cmd),
        snapshot_can_hold(post, step),
    ensures
        in_step(d, pre.data, post, step),
        post.data == effect_of(pre.data, cmd),
{
    if let StepView::Io { op: OpView::WriteLog { bytes }, then: _ } = step {
        law_logged_command_takes_effect(d.files, pre, cmd, post, step, bytes);
    }
    assert(post.data =~= effect_of(pre.data, cmd));
}

/// An operation that was done, and the step after it: the disk stays in step with
/// the store, through the log line, the temporary file, the rename and the
/// truncation, until the command is finished and the store is settled again.
pub proof fn law_done_operation_stays_in_step(
    d: Disk,
    before: Map<Seq<char>, Seq<char>>,
    pre: StoreView,
    op: OpView,
    then: PendingView,
    post: StoreView,
    step: StepView,
)
    requires
        in_step(d, before, pre, StepView::Io { op, then }),
        store::resumes(pre, then, OutcomeView::Done, post, step),
        snapshot_can_hold(post, step),
    ensures
        in_step(performed(d, pre.dir, op), before, post, step),
{
    config::law_files_are_distinct(pre.dir);
    let after = performed(d, pre.dir, op);
    let log = config::aol_file(pre.dir);
    let snapshot = config::snapshot_file(pre.dir);
    match then {
        PendingView::LogWrite(_) => {
            assert(Seq::<u8>::empty() + op->WriteLog_bytes =~= op->WriteLog_bytes);
        },
        PendingView::LogFlush(_) => {},
        PendingView::SnapshotWrite(_) => {
            assert(found(after.files, snapshot) == found(d.files, snapshot));
        },
        PendingView::SnapshotRename(_) => {
            recovery::law_snapshot_gives_the_table_back(
                d.files[config::snapshot_tmp_file(pre.dir)],
                pre.data,
            );
            recovery::law_replay_is_idempotent(base(d.files, pre.dir), d.files[log]);
        },
        PendingView::LogTruncation(_) => {
            recovery::law_empty_log_changes_nothing(pre.data);
        },
    }
}

/// A snapshot that fails, at any stage and whatever it leaves in the temporary
/// file, loses nothing: the store is settled as before.
pub proof fn law_failed_snapshot_loses_nothing(
    d: Disk,
    left: Disk,
    before: Map<Seq<char>, Seq<char>>,
    pre: StoreView,
    op: OpView,
    then: PendingView,
    why: Seq<char>,
    post: StoreView,
    step: StepView,
)
    requires
        in_step(d, before, pre, StepView::Io { op, then }),
        then is SnapshotWrite || then is SnapshotRename || then is LogTruncation,
        store::resumes(pre, then, OutcomeView::Failed(why), post, step),
        left.buffered == d.buffered,
        same_but_for(left.files, d.files, config::snapshot_tmp_file(pre.dir)),
    ensures
        step is Finished,
        post == pre,
        settled(left, post),
{
    config::law_files_are_distinct(pre.dir);
    let log = config::aol_file(pre.dir);
    let snapshot = config::snapshot_file(pre.dir);
    assert(found(left.files, log) == found(d.files, log));
    assert(found(left.files, snapshot) == found(d.files, snapshot));
}

/// What a crash leaves. Whenever it comes, before, in the middle of or after an
/// operation: the files can be opened, and they hold the table of the store; only
/// while a log line is on its way to the disk they may hold the table from before the
/// command. In the middle of a log line, what there is of it counts as a line: where
/// that is no log entry, it is skipped.
pub proof fn law_what_a_crash_leaves(
    d: Disk,
    before: Map<Seq<char>, Seq<char>>,
    s: StoreView,
    op: OpView,
    then: PendingView,
    left: Map<Seq<char>, Seq<u8>>,
)
    requires
        in_step(d, before, s, StepView::Io { op, then }),
        crashed(d, s.dir, op, left),
    ensures
        can_be_opened(left, s.dir),
        on_disk(left, s.dir) == s.data || ((op is WriteLog || op is FlushLog) && cut_short(
            before,
            left[config::aol_file(s.dir)],
            on_disk(left, s.dir),
        )),
{
    config::law_files_are_distinct(s.dir);
    let log = config::aol_file(s.dir);
    let snapshot = config::snapshot_file(s.dir);
    match op {
        OpView::WriteLog { bytes } => {
            assert(d.buffered + bytes =~= bytes);
            let n = choose|n: int|
                0 <= n <= (d.buffered + bytes).len() && left == d.files.insert(
                    log,
                    d.files[log] + #[trigger] (d.buffered + bytes).take(n),
                );
            lemma_crashed_append(d, before, s, bytes, n, left);
        },
        OpView::FlushLog => {
            let n = choose|n: int|
                0 <= n <= d.buffered.len() && left == d.files.insert(
                    log,
                    d.files[log] + #[trigger] d.buffered.take(n),
                );
            lemma_crashed_append(d, before, s, d.buffered, n, left);
        },
        OpView::WriteFile { path, bytes } => {
            assert(found(left, log) == found(d.files, log));
            assert(found(left, snapshot) == found(d.files, snapshot));
        },
        _ => {
            if then is SnapshotRename {
                recovery::law_snapshot_gives_the_table_back(
                    d.files[config::snapshot_tmp_file(s.dir)],
                    s.data,
                );
                recovery::law_replay_is_idempotent(base(d.files, s.dir), d.files[log]);
            } else {
                recovery::law_empty_log_changes_nothing(s.data);
            }
        },
    }
}

/// A crash loses at most one command: the files hold the table of the store, or that
/// from before the command. The one exception is a log line that was cut off where
/// what there is of it reads as another log entry.
pub proof fn law_crash_loses_at_most_one_command(
    d: Disk,
    before: Map<Seq<char>, Seq<char>>,
    s: StoreView,
    op: OpView,
    then: PendingView,
    left: Map<Seq<char>, Seq<u8>>,
)
    requires
        in_step(d, before, s, StepView::Io { op, then }),
        crashed(d, s.dir, op, left),
        op is WriteLog || op is FlushLog ==> ({
            let last = journal::byte_record(lines::unfinished(left[config::aol_file(s.dir)]));
            journal::applied(before, last) == before || journal::applied(before, last) == s.data
        }),
    ensures
        can_be_opened(left, s.dir),
        on_disk(left, s.dir) == s.data || on_disk(left, s.dir) == before,
{
    law_what_a_crash_leaves(d, before, s, op, then, left);
}

proof fn lemma_crashed_append(
    d: Disk,
    before: Map<Seq<char>, Seq<char>>,
    s: StoreView,
    bytes: Seq<u8>,
    n: int,
    left: Map<Seq<char>, Seq<u8>>,
)
    requires
        one_line_behind(d, before, bytes, s),
        0 <= n <= bytes.len(),
        left == d.files.insert(
            config::aol_file(s.dir),
            d.files[config::aol_file(s.dir)] + bytes.take(n),
        ),
    ensures
        can_be_opened(left, s.dir),
        on_disk(left, s.dir) == s.data || cut_short(
            before,
            left[config::aol_file(s.dir)],
            on_disk(left, s.dir),
        ),
{
    config::law_files_are_distinct(s.dir);
    let log = d.files[config::aol_file(s.dir)];
    assert(found(left, config::snapshot_file(s.dir)) == found(
        d.files,
        config::snapshot_file(s.dir),
    ));
    assert(on_disk(left, s.dir) == on_disk_with(d.files, s.dir, log + bytes.take(n)));
    if n == bytes.len() {
        assert(bytes.take(n) =~= bytes);
    }
}

/// The snapshot is the safety net. Whatever the disk held before, say because a
/// log line could not be written or flushed: once a snapshot was written, renamed and
/// the log truncated, the store is settled. The log is then empty, no temporary file is
/// left, and counting starts anew.
pub proof fn law_snapshot_is_the_safety_net(
    d: Disk,
    s0: StoreView,
    origin: OriginView,
    step0: StepView,
    s1: StoreView,
    step1: StepView,
    s2: StoreView,
    step2: StepView,
    s3: StoreView,
    step3: StepView,
)
    requires
        d.files.contains_key(config::aol_file(s0.dir)),
        recovery::all_storable(s0.data),
        store::begins_snapshot(s0, origin, step0),
        store::resumes(s0, step0->then, OutcomeView::Done, s1, step1),
        store::resumes(s1, step1->then, OutcomeView::Done, s2, step2),
        store::resumes(s2, step2->then, OutcomeView::Done, s3, step3),
    ensures
        ({
            let d1 = performed(d, s0.dir, step0->op);
            let d2 = performed(d1, s0.dir, step1->op);
            let d3 = performed(d2, s0.dir, step2->op);
            &&& settled(d3, s3)
            &&& s3.data == s0.data
            &&& s3.since == 0
            &&& step3 == StepView::Finished(store::snapshot_reply(origin, None))
            &&& d3.files.contains_key(config::snapshot_file(s0.dir))
            &&& d3.files[config::aol_file(s0.dir)] == Seq::<u8>::empty()
            &&& !d3.files.contains_key(config::snapshot_tmp_file(s0.dir))
        }),
{
    config::law_files_are_distinct(s0.dir);
    let d1 = performed(d, s0.dir, step0->op);
    recovery::law_snapshot_gives_the_table_back(
        d1.files[config::snapshot_tmp_file(s0.dir)],
        s0.data,
    );
    recovery::law_empty_log_changes_nothing(s0.data);
}

} // verus!
