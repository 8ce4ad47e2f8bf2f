//! The in-memory key-value store with persistence.
//!
//! Two persistence strategies, both used:
//!
//! **Append-only log:** every mutating command is appended to a log file the
//! moment it succeeds. On restart the log is replayed to rebuild the state.
//!
//! **Snapshot:** a periodic full dump of the table. On restart the snapshot is
//! loaded first, and the log is replayed on top of it.
//!
//! The store itself touches no file. `Store::execute` either finishes a command
//! or asks for one file operation; `Store::resume` takes the outcome, and either
//! finishes the command or asks for the next operation.

use vstd::prelude::*;
use vstd::string::*;
use crate::config;
use crate::glob;
use crate::journal;
use crate::lines;
use crate::table;
use crate::table::Table;
use crate::text;

pub use crate::command::{Command, CommandView};
pub use crate::config::StoreConfig;
pub use crate::glob::glob_match;
pub use crate::journal::InvalidUtf8;
pub use crate::reply::{Reply, ReplyView};

verus! {

/// A file operation that the store needs done.
#[derive(Debug)]
pub enum Op {
    /// Append the bytes to the log.
    WriteLog { bytes: Vec<u8> },
    /// Flush the log.
    FlushLog,
    /// Make the file anew with the bytes, and flush it.
    WriteFile { path: String, bytes: Vec<u8> },
    /// Rename the first file to the second, in one step.
    Rename { from: String, to: String },
    /// Where the file exists, empty it, drop what was not flushed, and log to it from
    /// now on.
    TruncateLog { path: String },
}

/// How a file operation went.
#[derive(Debug)]
pub enum Outcome {
    /// It was done.
    Done,
    /// There was no file to truncate.
    Absent,
    /// It failed, with the reason.
    Failed(String),
}

/// Who asked for a snapshot.
#[derive(Debug)]
pub enum Origin {
    /// The threshold was reached by a command with this reply.
    Auto(Reply),
    /// A client sent `SAVE`.
    Save,
}

/// What a command waits for.
#[derive(Debug)]
pub enum Pending {
    LogWrite(Reply),
    LogFlush(Reply),
    SnapshotWrite(Origin),
    SnapshotRename(Origin),
    LogTruncation(Origin),
}

/// A command's next step.
#[derive(Debug)]
pub enum Step {
    /// The command is finished, with this reply.
    Finished(Reply),
    /// The operation is to be done; its outcome goes to `Store::resume`.
    Io { op: Op, then: Pending },
}

/// A file operation as a mathematical value.
pub enum OpView {
    WriteLog { bytes: Seq<u8> },
    FlushLog,
    WriteFile { path: Seq<char>, bytes: Seq<u8> },
    Rename { from: Seq<char>, to: Seq<char> },
    TruncateLog { path: Seq<char> },
}

/// An outcome as a mathematical value.
pub enum OutcomeView {
    Done,
    Absent,
    Failed(Seq<char>),
}

/// A snapshot's origin as a mathematical value.
pub enum OriginView {
    Auto(ReplyView),
    Save,
}

/// What a command waits for, as a mathematical value.
pub enum PendingView {
    LogWrite(ReplyView),
    LogFlush(ReplyView),
    SnapshotWrite(OriginView),
    SnapshotRename(OriginView),
    LogTruncation(OriginView),
}

/// A command's next step as a mathematical value.
pub enum StepView {
    Finished(ReplyView),
    Io { op: OpView, then: PendingView },
}

impl View for Op {
    type V = OpView;

    open spec fn view(&self) -> OpView {
        match self {
            Op::WriteLog { bytes } => OpView::WriteLog { bytes: bytes@ },
            Op::FlushLog => OpView::FlushLog,
            Op::WriteFile { path, bytes } => OpView::WriteFile { path: path@, bytes: bytes@ },
            Op::Rename { from, to } => OpView::Rename { from: from@, to: to@ },
            Op::TruncateLog { path } => OpView::TruncateLog { path: path@ },
        }
    }
}

impl View for Outcome {
    type V = OutcomeView;

    open spec fn view(&self) -> OutcomeView {
        match self {
            Outcome::Done => OutcomeView::Done,
            Outcome::Absent => OutcomeView::Absent,
            Outcome::Failed(why) => OutcomeView::Failed(why@),
        }
    }
}

impl View for Origin {
    type V = OriginView;

    open spec fn view(&self) -> OriginView {
        match self {
            Origin::Auto(reply) => OriginView::Auto(reply@),
            Origin::Save => OriginView::Save,
        }
    }
}

impl View for Pending {
    type V = PendingView;

    open spec fn view(&self) -> PendingView {
        match self {
            Pending::LogWrite(reply) => PendingView::LogWrite(reply@),
            Pending::LogFlush(reply) => PendingView::LogFlush(reply@),
            Pending::SnapshotWrite(origin) => PendingView::SnapshotWrite(origin@),
            Pending::SnapshotRename(origin) => PendingView::SnapshotRename(origin@),
            Pending::LogTruncation(origin) => PendingView::LogTruncation(origin@),
        }
    }
}

impl View for Step {
    type V = StepView;

    open spec fn view(&self) -> StepView {
        match self {
            Step::Finished(reply) => StepView::Finished(reply@),
            Step::Io { op, then } => StepView::Io { op: op@, then: then@ },
        }
    }
}

/// The store.
pub struct Store {
    data: Table,
    config: StoreConfig,
    /// Whether there is a log to append to.
    logging: bool,
    /// Whether the log may end in the middle of a line.
    torn: bool,
    /// Log entries since the last snapshot; drives the threshold check.
    aol_since_snapshot: u64,
}

/// The store as a mathematical value.
pub struct StoreView {
    /// The keys and their values.
    pub data: Map<Seq<char>, Seq<char>>,
    /// The directory of the files.
    pub dir: Seq<char>,
    /// How many log entries make a snapshot due.
    pub threshold: u64,
    /// Whether there is a log to append to.
    pub logging: bool,
    /// Whether the log may end in the middle of a line.
    pub torn: bool,
    /// Log entries since the last snapshot.
    pub since: u64,
}

impl View for Store {
    type V = StoreView;

    closed spec fn view(&self) -> StoreView {
        StoreView {
            data: self.data@,
            dir: self.config.data_dir@,
            threshold: self.config.snapshot_threshold,
            logging: self.logging,
            torn: self.torn,
            since: self.aol_since_snapshot,
        }
    }
}

/// The table that the files of a data directory hold: the snapshot, where there
/// is one, with the log, where there is one, replayed on top.
pub open spec fn recovered(snapshot: Option<Seq<u8>>, log: Option<Seq<u8>>) -> Map<
    Seq<char>,
    Seq<char>,
> {
    let base = match snapshot {
        Some(bytes) => journal::loaded(Map::empty(), bytes),
        None => Map::empty(),
    };
    match log {
        Some(bytes) => journal::replayed(base, bytes),
        None => base,
    }
}

/// The store that opening a data directory with these files gives.
pub open spec fn opened(
    snapshot: Option<Seq<u8>>,
    log: Option<Seq<u8>>,
    dir: Seq<char>,
    threshold: u64,
) -> StoreView {
    StoreView {
        data: recovered(snapshot, log),
        dir,
        threshold,
        logging: true,
        torn: log matches Some(bytes) && !lines::terminated(bytes),
        since: 0,
    }
}

/// What opening a data directory with these files gives: the store and the skipped log
/// lines, or nothing where the snapshot cannot be read.
pub open spec fn opening(
    snapshot: Option<Seq<u8>>,
    log: Option<Seq<u8>>,
    dir: Seq<char>,
    threshold: u64,
) -> Option<(StoreView, Seq<Seq<char>>)> {
    if snapshot matches Some(bytes) && !journal::is_readable(bytes) {
        None
    } else {
        let skipped = match log {
            Some(bytes) => journal::unknown_lines(lines::byte_lines(bytes)),
            None => Seq::empty(),
        };
        Some((opened(snapshot, log, dir, threshold), skipped))
    }
}

/// What opening returns, as a mathematical value.
pub open spec fn opening_view(r: Result<(Store, Vec<String>), InvalidUtf8>) -> Option<
    (StoreView, Seq<Seq<char>>),
> {
    match r {
        Ok((store, skipped)) => Some((store@, text::views(skipped@))),
        Err(_) => None,
    }
}

/// The contents of a file that may be missing.
pub open spec fn contents(file: Option<&[u8]>) -> Option<Seq<u8>> {
    match file {
        Some(bytes) => Some(bytes@),
        None => None,
    }
}

/// The empty store without a log.
pub open spec fn without_files() -> StoreView {
    StoreView {
        data: Map::empty(),
        dir: "/dev/null"@,
        threshold: 1000,
        logging: false,
        torn: false,
        since: 0,
    }
}

/// The reply to a command that asked for a snapshot, once that is over.
pub open spec fn snapshot_reply(origin: OriginView, failure: Option<Seq<char>>) -> ReplyView {
    match origin {
        OriginView::Auto(reply) => reply,
        OriginView::Save => match failure {
            Some(why) => ReplyView::Error("snapshot failed: "@ + why),
            None => ReplyView::Okay,
        },
    }
}

/// The step that begins a snapshot: the table goes to the temporary file.
pub open spec fn begins_snapshot(s: StoreView, origin: OriginView, step: StepView) -> bool {
    &&& step matches StepView::Io { op: OpView::WriteFile { path, bytes }, then }
    &&& then == PendingView::SnapshotWrite(origin)
    &&& path == config::snapshot_tmp_file(s.dir)
    &&& journal::is_snapshot(bytes, s.data)
}

/// A log entry is counted; where that reaches the threshold, a snapshot begins.
pub open spec fn counts(s: StoreView, reply: ReplyView, post: StoreView, step: StepView) -> bool {
    &&& post == (StoreView { since: (s.since + 1) as u64, ..s })
    &&& if post.since >= post.threshold {
        begins_snapshot(post, OriginView::Auto(reply), step)
    } else {
        step == StepView::Finished(reply)
    }
}

/// A line goes to the log, where there is one, after the end of a torn line.
/// Without a log it is only counted.
pub open spec fn logs(
    s: StoreView,
    line: Seq<char>,
    reply: ReplyView,
    post: StoreView,
    step: StepView,
) -> bool {
    if s.logging {
        &&& post == s
        &&& step == (StepView::Io {
            op: OpView::WriteLog { bytes: journal::logged(s.torn, line) },
            then: PendingView::LogWrite(reply),
        })
    } else {
        counts(s, reply, post, step)
    }
}

/// The text that `INFO` answers with.
pub open spec fn info_text(s: StoreView) -> Seq<char> {
    "keys:"@ + text::decimal(s.data.len()) + "\naol_since_snapshot:"@ + text::decimal(
        s.since as nat,
    ) + "\nsnapshot_threshold:"@ + text::decimal(s.threshold as nat)
}

/// A flag as the integer that is sent for it.
pub open spec fn flag(b: bool) -> ReplyView {
    ReplyView::Integer(
        if b {
            1
        } else {
            0
        },
    )
}

/// Whether a command can change the table.
pub open spec fn mutates(cmd: CommandView) -> bool {
    cmd is SetKey || cmd is Del || cmd is Flushdb
}

/// What a command does: the store after it, and the step that it takes.
pub open spec fn executes(
    pre: StoreView,
    cmd: CommandView,
    post: StoreView,
    step: StepView,
) -> bool {
    match cmd {
        CommandView::Get { key } => {
            &&& post == pre
            &&& step == StepView::Finished(
                if pre.data.contains_key(key) {
                    ReplyView::Value(pre.data[key])
                } else {
                    ReplyView::Null
                },
            )
        },
        CommandView::SetKey { key, value } => logs(
            StoreView { data: pre.data.insert(key, value), ..pre },
            journal::set_line(key, value),
            ReplyView::Okay,
            post,
            step,
        ),
        CommandView::Del { key } => if pre.data.contains_key(key) {
            logs(
                StoreView { data: pre.data.remove(key), ..pre },
                journal::del_line(key),
                flag(true),
                post,
                step,
            )
        } else {
            post == pre && step == StepView::Finished(flag(false))
        },
        CommandView::Exists { key } => {
            &&& post == pre
            &&& step == StepView::Finished(flag(pre.data.contains_key(key)))
        },
        CommandView::Keys { pattern } => {
            &&& post == pre
            &&& step matches StepView::Finished(ReplyView::List(items))
            &&& table::lists(
                items,
                pre.data.dom().filter(|k: Seq<char>| glob::matches_glob(pattern, k)),
            )
        },
        CommandView::Dbsize => {
            &&& post == pre
            &&& step == StepView::Finished(ReplyView::Integer(pre.data.len() as i64))
        },
        CommandView::Ping { msg } => {
            &&& post == pre
            &&& step == StepView::Finished(
                ReplyView::Value(
                    match msg {
                        Some(m) => m,
                        None => "PONG"@,
                    },
                ),
            )
        },
        CommandView::Flushdb => logs(
            StoreView { data: Map::empty(), ..pre },
            journal::flush_line(),
            ReplyView::Okay,
            post,
            step,
        ),
        CommandView::Save => post == pre && begins_snapshot(pre, OriginView::Save, step),
        CommandView::Info => {
            &&& post == pre
            &&& step == StepView::Finished(ReplyView::Value(info_text(pre)))
        },
    }
}

/// What the outcome of an operation does: the store after it, and the next step.
///
/// A log line that could not be written is not counted, and may have left the log
/// torn; one that could not be flushed is counted. A snapshot is written beside the
/// old one, renamed over it, and then the log is emptied; it stops at the first
/// failure.
pub open spec fn resumes(
    pre: StoreView,
    pending: PendingView,
    outcome: OutcomeView,
    post: StoreView,
    step: StepView,
) -> bool {
    match pending {
        PendingView::LogWrite(reply) => {
            &&& post == (StoreView { torn: outcome is Failed, ..pre })
            &&& step == if outcome is Failed {
                StepView::Finished(reply)
            } else {
                StepView::Io { op: OpView::FlushLog, then: PendingView::LogFlush(reply) }
            }
        },
        PendingView::LogFlush(reply) => counts(pre, reply, post, step),
        PendingView::SnapshotWrite(origin) => {
            &&& post == pre
            &&& step == match outcome {
                OutcomeView::Failed(why) => StepView::Finished(snapshot_reply(origin, Some(why))),
                _ => StepView::Io {
                    op: OpView::Rename {
                        from: config::snapshot_tmp_file(pre.dir),
                        to: config::snapshot_file(pre.dir),
                    },
                    then: PendingView::SnapshotRename(origin),
                },
            }
        },
        PendingView::SnapshotRename(origin) => {
            &&& post == pre
            &&& step == match outcome {
                OutcomeView::Failed(why) => StepView::Finished(snapshot_reply(origin, Some(why))),
                _ => StepView::Io {
                    op: OpView::TruncateLog { path: config::aol_file(pre.dir) },
                    then: PendingView::LogTruncation(origin),
                },
            }
        },
        PendingView::LogTruncation(origin) => match outcome {
            OutcomeView::Failed(why) => {
                &&& post == pre
                &&& step == StepView::Finished(snapshot_reply(origin, Some(why)))
            },
            OutcomeView::Absent => {
                &&& post == (StoreView { since: 0, ..pre })
                &&& step == StepView::Finished(snapshot_reply(origin, None))
            },
            OutcomeView::Done => {
                &&& post == (StoreView { since: 0, logging: true, torn: false, ..pre })
                &&& step == StepView::Finished(snapshot_reply(origin, None))
            },
        },
    }
}

impl Store {
    /// The table is well formed.
    pub closed spec fn wf(&self) -> bool {
        self.data.wf()
    }

    /// A store with the data of its files: the snapshot, if there is one, is
    /// loaded, and the log, if there is one, is replayed on top. Future entries
    /// go to the log. The log lines that were skipped are handed back.
    pub fn open(
        config: StoreConfig,
        snapshot: Option<&[u8]>,
        log: Option<&[u8]>,
    ) -> (r: Result<(Store, Vec<String>), InvalidUtf8>)
        ensures
            opening_view(r) == opening(
                contents(snapshot),
                contents(log),
                config.data_dir@,
                config.snapshot_threshold,
            ),
            r is Err <==> (snapshot matches Some(bytes) && !journal::is_readable(bytes@)),
            r matches Ok((store, skipped)) ==> {
                &&& store.wf()
                &&& store@ == opened(
                    match snapshot {
                        Some(bytes) => Some(bytes@),
                        None => None,
                    },
                    match log {
                        Some(bytes) => Some(bytes@),
                        None => None,
                    },
                    config.data_dir@,
                    config.snapshot_threshold,
                )
                &&& text::views(skipped@) == match log {
                    Some(bytes) => journal::unknown_lines(lines::byte_lines(bytes@)),
                    None => Seq::empty(),
                }
            },
    {
        let mut data: Table = Table::new();
        if let Some(bytes) = snapshot {
            match journal::load_snapshot(bytes, &mut data) {
                Ok(()) => {},
                Err(e) => {
                    return Err(e);
                },
            }
        }
        let skipped: Vec<String> = match log {
            Some(bytes) => journal::replay_aol(bytes, &mut data),
            None => Vec::new(),
        };
        proof {
            if log is None {
                assert(text::views(skipped@) =~= Seq::empty());
            }
        }
        let torn: bool = match log {
            Some(bytes) => journal::is_torn(bytes),
            None => false,
        };
        let store = Store { data, config, logging: true, torn, aol_since_snapshot: 0 };
        Ok((store, skipped))
    }

    /// An empty store without a log.
    pub fn in_memory() -> (r: Store)
        ensures
            r.wf(),
            r@ == without_files(),
    {
        Store {
            data: Table::new(),
            config: StoreConfig::new("/dev/null"),
            logging: false,
            torn: false,
            aol_since_snapshot: 0,
        }
    }

    /// Executes a command, up to the first file operation that it needs.
    pub fn execute(&mut self, cmd: &Command) -> (step: Step)
        requires
            old(self).wf(),
            mutates(cmd@) ==> old(self)@.since < u64::MAX,
        ensures
            final(self).wf(),
            executes(old(self)@, cmd@, final(self)@, step@),
    {
        match cmd {
            Command::Get { key } => Step::Finished(self.get(key.as_str())),
            Command::SetKey { key, value } => self.set(key.as_str(), value.as_str()),
            Command::Del { key } => self.del(key.as_str()),
            Command::Exists { key } => Step::Finished(self.has(key.as_str())),
            Command::Keys { pattern } => Step::Finished(self.keys(pattern.as_str())),
            Command::Dbsize => {
                Step::Finished(Reply::Integer(#[verifier::truncate] (self.data.len() as i64)))
            },
            Command::Ping { msg } => Step::Finished(
                match msg {
                    Some(m) => Reply::Value(m.clone()),
                    None => Reply::Value("PONG".to_owned()),
                },
            ),
            Command::Flushdb => self.flushdb(),
            Command::Save => self.save_snapshot(),
            Command::Info => Step::Finished(self.info()),
        }
    }

    fn get(&self, key: &str) -> (r: Reply)
        requires
            self.wf(),
        ensures
            r@ == if self@.data.contains_key(key@) {
                ReplyView::Value(self@.data[key@])
            } else {
                ReplyView::Null
            },
    {
        match self.data.get(key) {
            Some(v) => Reply::Value(v.clone()),
            None => Reply::Null,
        }
    }

    fn set(&mut self, key: &str, value: &str) -> (step: Step)
        requires
            old(self).wf(),
            old(self)@.since < u64::MAX,
        ensures
            final(self).wf(),
            logs(
                (StoreView { data: old(self)@.data.insert(key@, value@), ..old(self)@ }),
                journal::set_line(key@, value@),
                ReplyView::Okay,
                final(self)@,
                step@,
            ),
    {
        self.data.insert(key.to_owned(), value.to_owned());
        let line: String = journal::format_set(key, value);
        self.append_log(line, Reply::Okay)
    }

    fn del(&mut self, key: &str) -> (step: Step)
        requires
            old(self).wf(),
            old(self)@.since < u64::MAX,
        ensures
            final(self).wf(),
            executes(old(self)@, CommandView::Del { key: key@ }, final(self)@, step@),
    {
        let removed: bool = self.data.remove(key);
        if removed {
            let line: String = journal::format_del(key);
            self.append_log(line, Reply::Integer(1))
        } else {
            proof {
                assert(old(self)@.data.remove(key@) =~= old(self)@.data);
            }
            Step::Finished(Reply::Integer(0))
        }
    }

    fn has(&self, key: &str) -> (r: Reply)
        requires
            self.wf(),
        ensures
            r@ == flag(self@.data.contains_key(key@)),
    {
        Reply::Integer(
            if self.data.contains_key(key) {
                1
            } else {
                0
            },
        )
    }

    fn keys(&self, pattern: &str) -> (r: Reply)
        requires
            self.wf(),
        ensures
            r@ matches ReplyView::List(items) && table::lists(
                items,
                self@.data.dom().filter(|k: Seq<char>| glob::matches_glob(pattern@, k)),
            ),
    {
        let everything: bool = text::same(pattern, "*");
        let ghost wanted = |k: Seq<char>| glob::matches_glob(pattern@, k);
        let ghost order = self.data.order();
        let n: usize = self.data.len();
        let mut matched: Vec<String> = Vec::new();
        let mut i: usize = 0;
        proof {
            self.data.lemma_order();
        }
        while i < n
            invariant
                i <= n,
                self.wf(),
                order == self.data.order(),
                order.no_duplicates(),
                n == order.len(),
                everything == (pattern@ == "*"@),
                wanted == (|k: Seq<char>| glob::matches_glob(pattern@, k)),
                text::views(matched@).no_duplicates(),
                forall|k: Seq<char>| #[trigger]
                    text::views(matched@).contains(k) <==> order.take(i as int).contains(k)
                        && wanted(k),
            decreases n - i,
        {
            let (key, _value) = self.data.entry(i);
            let hit: bool = everything || glob::glob_match(pattern, key.as_str());
            proof {
                if everything {
                    glob::law_star_matches_everything(key@);
                }
                assert(order.take(i + 1) =~= order.take(i as int).push(key@));
                assert(!order.take(i as int).contains(key@)) by {
                    if order.take(i as int).contains(key@) {
                        let j = order.take(i as int).index_of(key@);
                        assert(order[j] == order[i as int]);
                    }
                }
            }
            let ghost before = text::views(matched@);
            if hit {
                matched.push(key.clone());
                proof {
                    assert(text::views(matched@) =~= before.push(key@));
                    assert(!before.contains(key@));
                    assert forall|a: int, b: int| 0 <= a < b < before.push(key@).len() implies
                        #[trigger] before.push(key@)[a] != #[trigger] before.push(key@)[b] by {
                        assert(before.contains(before[a]));
                    }
                }
            }
            proof {
                lemma_pushed_members(order.take(i as int), key@);
                lemma_pushed_members(before, key@);
            }
            i = i + 1;
        }
        proof {
            assert(order.take(n as int) =~= order);
            let items = text::views(matched@);
            let keys = self@.data.dom();
            assert forall|k: Seq<char>| items.to_set().contains(k) <==> keys.filter(
                wanted,
            ).contains(k) by {
                assert(items.contains(k) <==> order.contains(k) && wanted(k));
                assert(order.to_set().contains(k) <==> keys.contains(k));
            }
            assert(items.to_set() =~= keys.filter(wanted));
        }
        Reply::List(matched)
    }

    fn flushdb(&mut self) -> (step: Step)
        requires
            old(self).wf(),
            old(self)@.since < u64::MAX,
        ensures
            final(self).wf(),
            executes(old(self)@, CommandView::Flushdb, final(self)@, step@),
    {
        self.data.clear();
        self.append_log("FLUSHDB\n".to_owned(), Reply::Okay)
    }

    fn save_snapshot(&self) -> (step: Step)
        requires
            self.wf(),
        ensures
            begins_snapshot(self@, OriginView::Save, step@),
    {
        self.write_snapshot(Origin::Save)
    }

    fn info(&self) -> (r: Reply)
        requires
            self.wf(),
        ensures
            r@ == ReplyView::Value(info_text(self@)),
    {
        let mut out: String = text::concat(
            "keys:",
            text::decimal_of(self.data.len() as u64).as_str(),
        );
        out.append("\naol_since_snapshot:");
        out.append(text::decimal_of(self.aol_since_snapshot).as_str());
        out.append("\nsnapshot_threshold:");
        out.append(text::decimal_of(self.config.snapshot_threshold).as_str());
        Reply::Value(out)
    }

    fn append_log(&mut self, line: String, reply: Reply) -> (step: Step)
        requires
            old(self).wf(),
            old(self)@.since < u64::MAX,
        ensures
            final(self).wf(),
            logs(old(self)@, line@, reply@, final(self)@, step@),
    {
        if self.logging {
            Step::Io {
                op: Op::WriteLog { bytes: journal::log_bytes(self.torn, line.as_str()) },
                then: Pending::LogWrite(reply),
            }
        } else {
            self.count_entry(reply)
        }
    }

    fn count_entry(&mut self, reply: Reply) -> (step: Step)
        requires
            old(self).wf(),
            old(self)@.since < u64::MAX,
        ensures
            final(self).wf(),
            counts(old(self)@, reply@, final(self)@, step@),
    {
        self.aol_since_snapshot = self.aol_since_snapshot + 1;
        if self.aol_since_snapshot >= self.config.snapshot_threshold {
            self.write_snapshot(Origin::Auto(reply))
        } else {
            Step::Finished(reply)
        }
    }

    /// Begins an atomic snapshot: it is written to a temporary file first.
    fn write_snapshot(&self, origin: Origin) -> (step: Step)
        requires
            self.wf(),
        ensures
            begins_snapshot(self@, origin@, step@),
    {
        Step::Io {
            op: Op::WriteFile {
                path: self.config.snapshot_tmp_path(),
                bytes: journal::snapshot_bytes(&self.data),
            },
            then: Pending::SnapshotWrite(origin),
        }
    }

    /// Goes on with a command after a file operation.
    pub fn resume(&mut self, pending: Pending, outcome: Outcome) -> (step: Step)
        requires
            old(self).wf(),
            pending is LogFlush ==> old(self)@.since < u64::MAX,
            outcome is Absent ==> pending is LogTruncation,
        ensures
            final(self).wf(),
            resumes(old(self)@, pending@, outcome@, final(self)@, step@),
    {
        match pending {
            Pending::LogWrite(reply) => match outcome {
                Outcome::Failed(_) => {
                    self.torn = true;
                    Step::Finished(reply)
                },
                _ => {
                    self.torn = false;
                    Step::Io { op: Op::FlushLog, then: Pending::LogFlush(reply) }
                },
            },
            Pending::LogFlush(reply) => self.count_entry(reply),
            Pending::SnapshotWrite(origin) => match outcome {
                Outcome::Failed(why) => Step::Finished(reply_after_snapshot(origin, Some(why))),
                _ => Step::Io {
                    op: Op::Rename {
                        from: self.config.snapshot_tmp_path(),
                        to: self.config.snapshot_path(),
                    },
                    then: Pending::SnapshotRename(origin),
                },
            },
            Pending::SnapshotRename(origin) => match outcome {
                Outcome::Failed(why) => Step::Finished(reply_after_snapshot(origin, Some(why))),
                _ => Step::Io {
                    op: Op::TruncateLog { path: self.config.aol_path() },
                    then: Pending::LogTruncation(origin),
                },
            },
            Pending::LogTruncation(origin) => match outcome {
                Outcome::Failed(why) => Step::Finished(reply_after_snapshot(origin, Some(why))),
                Outcome::Absent => {
                    self.aol_since_snapshot = 0;
                    Step::Finished(reply_after_snapshot(origin, None))
                },
                Outcome::Done => {
                    self.aol_since_snapshot = 0;
                    self.logging = true;
                    self.torn = false;
                    Step::Finished(reply_after_snapshot(origin, None))
                },
            },
        }
    }

    /// The number of keys.
    pub fn len(&self) -> (r: usize)
        requires
            self.wf(),
        ensures
            r == self@.data.len(),
    {
        self.data.len()
    }

    /// Whether there are no keys.
    pub fn is_empty(&self) -> (r: bool)
        requires
            self.wf(),
        ensures
            r == (self@.data == Map::<Seq<char>, Seq<char>>::empty()),
    {
        proof {
            self.data.lemma_order();
            if self.data@.dom().len() == 0 {
                assert(self.data@ =~= Map::empty());
            }
        }
        self.data.len() == 0
    }

    /// How many log entries were counted since the last snapshot.
    pub fn aol_since_snapshot(&self) -> (r: u64)
        ensures
            r == self@.since,
    {
        self.aol_since_snapshot
    }
}

/// The reply to a command that asked for a snapshot, once that is over.
fn reply_after_snapshot(origin: Origin, failure: Option<String>) -> (r: Reply)
    ensures
        r@ == snapshot_reply(
            origin@,
            match failure {
                Some(why) => Some(why@),
                None => None,
            },
        ),
{
    match origin {
        Origin::Auto(reply) => reply,
        Origin::Save => match failure {
            Some(why) => Reply::Error(text::concat("snapshot failed: ", why.as_str())),
            None => Reply::Okay,
        },
    }
}

proof fn lemma_pushed_members(s: Seq<Seq<char>>, x: Seq<char>)
    ensures
        forall|k: Seq<char>| #[trigger] s.push(x).contains(k) <==> s.contains(k) || k == x,
{
    assert forall|k: Seq<char>| #[trigger] s.push(x).contains(k) <==> s.contains(k) || k == x by {
        if s.contains(k) {
            let i = s.index_of(k);
            assert(s.push(x)[i] == k);
        }
        if k == x {
            assert(s.push(x)[s.len() as int] == k);
        }
        if s.push(x).contains(k) && k != x {
            let i = s.push(x).index_of(k);
            assert(s[i] == k);
        }
    }
}

} // verus!
