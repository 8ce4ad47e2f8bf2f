//! A run of the store from one opening to the next.

use vstd::prelude::*;
use crate::command;
use crate::command::CommandView;
use crate::config;
use crate::durability;
use crate::durability::Disk;
use crate::recovery;
use crate::store;
use crate::store::{OpView, OutcomeView, PendingView, StepView, StoreView};

verus! {

/// The table after commands, one after the other.
pub open spec fn effect_of_all(m: Map<Seq<char>, Seq<char>>, cmds: Seq<CommandView>) -> Map<
    Seq<char>,
    Seq<char>,
>
    decreases cmds.len(),
{
    if cmds.len() == 0 {
        m
    } else {
        durability::effect_of(effect_of_all(m, cmds.drop_last()), cmds.last())
    }
}

/// An operation failed that belongs to a snapshot. It may have left anything in
/// the temporary file.
pub open spec fn snapshot_fails(
    d: Disk,
    s: StoreView,
    then: PendingView,
    why: Seq<char>,
    d1: Disk,
    s1: StoreView,
    step: StepView,
) -> bool {
    &&& then is SnapshotWrite || then is SnapshotRename || then is LogTruncation
    &&& store::resumes(s, then, OutcomeView::Failed(why), s1, step)
    &&& d1.buffered == d.buffered
    &&& durability::same_but_for(d1.files, d.files, config::snapshot_tmp_file(s.dir))
}

/// One operation and the step after it: it is done, or a snapshot fails.
pub open spec fn proceeds(
    d: Disk,
    s: StoreView,
    op: OpView,
    then: PendingView,
    d1: Disk,
    s1: StoreView,
    step: StepView,
) -> bool {
    ||| store::resumes(s, then, OutcomeView::Done, s1, step) && d1 == durability::performed(
        d,
        s.dir,
        op,
    )
    ||| exists|why: Seq<char>| #[trigger] snapshot_fails(d, s, then, why, d1, s1, step)
}

/// A command's step, and the operations after it, until it is finished. `n` bounds
/// the operations. Where `checked`, a snapshot is begun only of a table that it can
/// hold.
pub open spec fn completes(
    checked: bool,
    d: Disk,
    s: StoreView,
    step: StepView,
    d2: Disk,
    s2: StoreView,
    n: nat,
) -> bool
    decreases n,
{
    match step {
        StepView::Finished(_) => d2 == d && s2 == s,
        StepView::Io { op, then } => {
            &&& n > 0
            &&& checked ==> durability::snapshot_can_hold(s, step)
            &&& exists|d1: Disk, s1: StoreView, next: StepView| #[trigger]
                proceeds(d, s, op, then, d1, s1, next) && completes(
                    checked,
                    d1,
                    s1,
                    next,
                    d2,
                    s2,
                    (n - 1) as nat,
                )
        },
    }
}

/// A command from its start to its end.
pub open spec fn runs(
    checked: bool,
    d: Disk,
    s: StoreView,
    cmd: CommandView,
    d2: Disk,
    s2: StoreView,
) -> bool {
    exists|post: StoreView, step: StepView, n: nat| #[trigger]
        store::executes(s, cmd, post, step) && #[trigger] completes(
            checked,
            d,
            post,
            step,
            d2,
            s2,
            n,
        )
}

/// Commands, one after the other, each from its start to its end.
pub open spec fn runs_all(
    checked: bool,
    d: Disk,
    s: StoreView,
    cmds: Seq<CommandView>,
    d2: Disk,
    s2: StoreView,
) -> bool
    decreases cmds.len(),
{
    if cmds.len() == 0 {
        d2 == d && s2 == s
    } else {
        exists|d1: Disk, s1: StoreView| #[trigger]
            runs(checked, d1, s1, cmds.last(), d2, s2) && runs_all(
                checked,
                d,
                s,
                cmds.drop_last(),
                d1,
                s1,
            )
    }
}

proof fn lemma_completes(
    checked: bool,
    d: Disk,
    before: Map<Seq<char>, Seq<char>>,
    s: StoreView,
    step: StepView,
    d2: Disk,
    s2: StoreView,
    n: nat,
)
    requires
        checked || recovery::all_storable(s.data),
        durability::in_step(d, before, s, step),
        completes(checked, d, s, step, d2, s2, n),
    ensures
        durability::settled(d2, s2),
        s2.data == s.data,
        s2.dir == s.dir,
    decreases n,
{
    if let StepView::Io { op, then } = step {
        let (d1, s1, next) = choose|d1: Disk, s1: StoreView, next: StepView| #[trigger]
            proceeds(d, s, op, then, d1, s1, next) && completes(
                checked,
                d1,
                s1,
                next,
                d2,
                s2,
                (n - 1) as nat,
            );
        if store::resumes(s, then, OutcomeView::Done, s1, next) && d1 == durability::performed(
            d,
            s.dir,
            op,
        ) {
            durability::law_done_operation_stays_in_step(d, before, s, op, then, s1, next);
        } else {
            let why = choose|why: Seq<char>| #[trigger]
                snapshot_fails(d, s, then, why, d1, s1, next);
            durability::law_failed_snapshot_loses_nothing(
                d,
                d1,
                before,
                s,
                op,
                then,
                why,
                s1,
                next,
            );
        }
        lemma_completes(checked, d1, before, s1, next, d2, s2, (n - 1) as nat);
    }
}

/// A command that ran to its end did to the table what it says, and the store is
/// settled.
pub proof fn law_command_takes_effect(
    checked: bool,
    d: Disk,
    s: StoreView,
    cmd: CommandView,
    d2: Disk,
    s2: StoreView,
)
    requires
        durability::settled(d, s),
        durability::is_loggable(cmd),
        checked || recovery::all_storable(durability::effect_of(s.data, cmd)),
        runs(checked, d, s, cmd, d2, s2),
    ensures
        durability::settled(d2, s2),
        s2.data == durability::effect_of(s.data, cmd),
        s2.dir == s.dir,
{
    let (post, step, n) = choose|post: StoreView, step: StepView, n: nat| #[trigger]
        store::executes(s, cmd, post, step) && #[trigger] completes(
            checked,
            d,
            post,
            step,
            d2,
            s2,
            n,
        );
    assert(post.data =~= durability::effect_of(s.data, cmd));
    durability::law_command_begins_in_step(d, s, cmd, post, step);
    lemma_completes(checked, d, s.data, post, step, d2, s2, n);
}

proof fn lemma_runs_all(
    checked: bool,
    d: Disk,
    s: StoreView,
    cmds: Seq<CommandView>,
    d2: Disk,
    s2: StoreView,
)
    requires
        durability::settled(d, s),
        forall|i: int| 0 <= i < cmds.len() ==> durability::is_loggable(#[trigger] cmds[i]),
        checked || (recovery::all_storable(s.data) && forall|i: int|
            0 <= i < cmds.len() ==> durability::is_storable(#[trigger] cmds[i])),
        runs_all(checked, d, s, cmds, d2, s2),
    ensures
        durability::settled(d2, s2),
        s2.data == effect_of_all(s.data, cmds),
        checked || recovery::all_storable(s2.data),
        s2.dir == s.dir,
    decreases cmds.len(),
{
    if cmds.len() > 0 {
        let (d1, s1) = choose|d1: Disk, s1: StoreView| #[trigger]
            runs(checked, d1, s1, cmds.last(), d2, s2) && runs_all(
                checked,
                d,
                s,
                cmds.drop_last(),
                d1,
                s1,
            );
        let cmd = cmds[cmds.len() - 1];
        assert forall|i: int| 0 <= i < cmds.drop_last().len() implies durability::is_loggable(
            #[trigger] cmds.drop_last()[i],
        ) && (checked || durability::is_storable(cmds.drop_last()[i])) by {
            assert(durability::is_loggable(cmds[i]));
            assert(checked || durability::is_storable(cmds[i]));
        }
        lemma_runs_all(checked, d, s, cmds.drop_last(), d1, s1);
        assert(durability::is_loggable(cmd));
        if !checked {
            assert(durability::is_storable(cmd));
            durability::law_storable_commands_keep_the_table_storable(s1.data, cmd);
        }
        law_command_takes_effect(checked, d1, s1, cmd, d2, s2);
    }
}

/// A restart gives the table back. Whatever files a store was opened on, a torn log
/// included, and whatever commands ran, with whatever snapshots in between, taken or
/// failed, of tables that a snapshot can hold: the files can be opened again, and
/// that gives the table which the commands made of the one at the start.
pub proof fn law_restart_gives_the_table_back(
    files: Map<Seq<char>, Seq<u8>>,
    dir: Seq<char>,
    threshold: u64,
    cmds: Seq<CommandView>,
    d2: Disk,
    s2: StoreView,
)
    requires
        durability::can_be_opened(files, dir),
        forall|i: int| 0 <= i < cmds.len() ==> durability::is_loggable(#[trigger] cmds[i]),
        runs_all(
            true,
            durability::disk_at_start(files, dir),
            durability::opened(files, dir, threshold),
            cmds,
            d2,
            s2,
        ),
    ensures
        durability::can_be_opened(d2.files, dir),
        durability::opened(d2.files, dir, threshold).data == s2.data,
        s2.data == effect_of_all(durability::on_disk(files, dir), cmds),
{
    durability::law_open_is_settled(files, dir, threshold);
    lemma_runs_all(
        true,
        durability::disk_at_start(files, dir),
        durability::opened(files, dir, threshold),
        cmds,
        d2,
        s2,
    );
}

/// So it is for all commands that lines of input ask for, whatever their keys, and
/// for all snapshots on the way, unless the log brought in a key that begins with
/// white space.
pub proof fn law_restart_gives_back_what_clients_set(
    files: Map<Seq<char>, Seq<u8>>,
    dir: Seq<char>,
    threshold: u64,
    input: Seq<Seq<char>>,
    cmds: Seq<CommandView>,
    d2: Disk,
    s2: StoreView,
)
    requires
        durability::can_be_opened(files, dir),
        forall|k: Seq<char>| #[trigger]
            durability::on_disk(files, dir).contains_key(k) ==> recovery::begins_plainly(k),
        input.len() == cmds.len(),
        forall|i: int|
            0 <= i < input.len() ==> !(#[trigger] input[i]).contains('\n') && command::parsed(
                input[i],
            ) == Ok::<_, Seq<char>>(cmds[i]),
        runs_all(
            false,
            durability::disk_at_start(files, dir),
            durability::opened(files, dir, threshold),
            cmds,
            d2,
            s2,
        ),
    ensures
        durability::can_be_opened(d2.files, dir),
        durability::opened(d2.files, dir, threshold).data == s2.data,
        s2.data == effect_of_all(durability::on_disk(files, dir), cmds),
{
    assert forall|i: int| 0 <= i < cmds.len() implies durability::is_loggable(#[trigger] cmds[i])
        && durability::is_storable(cmds[i]) by {
        assert(!input[i].contains('\n'));
        durability::law_parsed_commands_are_storable(input[i]);
    }
    durability::law_open_is_settled(files, dir, threshold);
    durability::law_opened_tables_are_storable(files, dir);
    lemma_runs_all(
        false,
        durability::disk_at_start(files, dir),
        durability::opened(files, dir, threshold),
        cmds,
        d2,
        s2,
    );
}

} // verus!
