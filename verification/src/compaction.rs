//! Removing checkpoints that are no longer needed.
//!
//! The files of an operator's old checkpoints are deleted, except for those that its first
//! checkpoint which stays still lists; then the metadata of the old checkpoints is deleted.
use vstd::prelude::*;

use crate::paths;
use crate::paths::{base_path, metadata_path, operator_path};
use crate::types;
use crate::types::{copy_strings, parquet_files, BackendData, CheckpointMetadata, ParquetStoreData};

verus! {

/// Those of `list` that are to be deleted, each once and in order: neither kept nor deleted
/// already.
pub open spec fn to_delete(
    list: Seq<Seq<char>>,
    keep: Seq<Seq<char>>,
    deleted: Seq<Seq<char>>,
) -> Seq<Seq<char>>
    decreases list.len(),
{
    if list.len() == 0 {
        Seq::empty()
    } else {
        let before = to_delete(list.drop_last(), keep, deleted);
        let path = list.last();
        if keep.contains(path) || deleted.contains(path) || before.contains(path) {
            before
        } else {
            before.push(path)
        }
    }
}

/// What the compaction of an operator is told.
#[derive(Debug)]
pub enum CompactionEvent {
    /// The entries of the metadata that was to be loaded, or `None` where there is none.
    Loaded(Option<Vec<BackendData>>),
    /// The file is deleted, or was not there.
    Deleted,
    /// The file could not be deleted.
    DeleteFailed,
}

/// What the compaction of an operator asks for.
#[derive(Debug)]
pub enum CompactionAction {
    /// Load the metadata at `path`.
    Load { path: String },
    /// Delete `file` if it is there.
    Delete { file: String },
    /// The files of this operator are dealt with.
    Finished { operator: String },
    /// Give up.
    Fail,
}

/// What a [`CompactionAction`] says, over mathematical values.
pub enum Action {
    Load { path: Seq<char> },
    Delete { file: Seq<char> },
    Finished { operator: Seq<char> },
    Fail,
}

impl View for CompactionAction {
    type V = Action;

    open spec fn view(&self) -> Action {
        match self {
            CompactionAction::Load { path } => Action::Load { path: path@ },
            CompactionAction::Delete { file } => Action::Delete { file: file@ },
            CompactionAction::Finished { operator } => Action::Finished { operator: operator@ },
            CompactionAction::Fail => Action::Fail,
        }
    }
}

/// What the compaction of an operator is at.
pub enum Phase {
    /// It waits for the metadata of the first checkpoint that stays.
    LoadingKept,
    /// It waits for the metadata of the next checkpoint that goes.
    LoadingEpoch,
    /// It waits for a file to be deleted; `rest` is still to come.
    Deleting { rest: Seq<Seq<char>> },
    /// It has ended.
    Ended,
}

/// The state of the compaction of an operator.
pub struct CompactionState {
    pub job_id: Seq<char>,
    pub operator: Seq<char>,
    /// The next epoch whose checkpoint goes.
    pub next_epoch: u32,
    /// The first epoch whose checkpoint stays.
    pub new_min_epoch: u32,
    /// The files that the first checkpoint which stays lists.
    pub keep: Seq<Seq<char>>,
    /// The files that were deleted, or are about to be.
    pub deleted: Seq<Seq<char>>,
    pub phase: Phase,
}

/// The start of the compaction of `operator` that removes the checkpoints from `old_min_epoch`
/// on and before `new_min_epoch`: the metadata of the checkpoint at `new_min_epoch` is loaded.
pub open spec fn start_of(
    job_id: Seq<char>,
    operator: Seq<char>,
    old_min_epoch: u32,
    new_min_epoch: u32,
) -> (CompactionState, Action) {
    (
        CompactionState {
            job_id,
            operator,
            next_epoch: old_min_epoch,
            new_min_epoch,
            keep: Seq::empty(),
            deleted: Seq::empty(),
            phase: Phase::LoadingKept,
        },
        Action::Load { path: paths::operator_metadata(job_id, new_min_epoch, operator) },
    )
}

/// Going on with the checkpoint of `epoch`.
pub open spec fn at_epoch(state: CompactionState, epoch: u32) -> (CompactionState, Action) {
    if epoch < state.new_min_epoch {
        (
            CompactionState { next_epoch: epoch, phase: Phase::LoadingEpoch, ..state },
            Action::Load { path: paths::operator_metadata(state.job_id, epoch, state.operator) },
        )
    } else {
        (
            CompactionState { next_epoch: epoch, phase: Phase::Ended, ..state },
            Action::Finished { operator: state.operator },
        )
    }
}

/// Deleting `list`, and then going on with the next checkpoint.
pub open spec fn deleting(state: CompactionState, list: Seq<Seq<char>>) -> (
    CompactionState,
    Action,
) {
    if list.len() == 0 {
        at_epoch(state, (state.next_epoch + 1) as u32)
    } else {
        (
            CompactionState { phase: Phase::Deleting { rest: list.drop_first() }, ..state },
            Action::Delete { file: list[0] },
        )
    }
}

/// Where the files lie that the entries of a checkpoint's metadata stand for.
pub open spec fn listed(entries: Seq<BackendData>) -> Seq<Seq<char>> {
    types::paths_of(types::parquet_views(entries))
}

/// What the compaction does on an event that it accepts.
pub open spec fn transition(state: CompactionState, event: CompactionEvent) -> (
    CompactionState,
    Action,
) {
    match (state.phase, event) {
        (Phase::LoadingKept, CompactionEvent::Loaded(Some(entries))) => at_epoch(
            CompactionState { keep: listed(entries@), ..state },
            state.next_epoch,
        ),
        (Phase::LoadingEpoch, CompactionEvent::Loaded(None)) => at_epoch(
            state,
            (state.next_epoch + 1) as u32,
        ),
        (Phase::LoadingEpoch, CompactionEvent::Loaded(Some(entries))) => {
            let fresh = to_delete(listed(entries@), state.keep, state.deleted);
            deleting(CompactionState { deleted: state.deleted + fresh, ..state }, fresh)
        },
        (Phase::Deleting { rest }, CompactionEvent::Deleted) => deleting(state, rest),
        (Phase::Deleting { .. }, CompactionEvent::DeleteFailed) => (
            CompactionState { phase: Phase::Ended, ..state },
            Action::Fail,
        ),
        _ => (state, Action::Fail),
    }
}

/// The events that a compaction can take: those that answer what it asked for last. The
/// metadata of the first checkpoint that stays has to be there, and metadata lists state files
/// alone.
pub open spec fn is_accepted(state: CompactionState, event: CompactionEvent) -> bool {
    match (state.phase, event) {
        (Phase::LoadingKept, CompactionEvent::Loaded(Some(entries))) => types::all_parquet(
            entries@,
        ),
        (Phase::LoadingEpoch, CompactionEvent::Loaded(None)) => true,
        (Phase::LoadingEpoch, CompactionEvent::Loaded(Some(entries))) => types::all_parquet(
            entries@,
        ),
        (Phase::Deleting { .. }, CompactionEvent::Deleted) => true,
        (Phase::Deleting { .. }, CompactionEvent::DeleteFailed) => true,
        _ => false,
    }
}

/// Whether `path` is in `list`.
fn contains_path(list: &Vec<String>, path: &String) -> (found: bool)
    ensures
        found == types::string_views(list@).contains(path@),
{
    let ghost views = types::string_views(list@);
    let mut i: usize = 0;
    while i < list.len()
        invariant
            i <= list@.len(),
            views == types::string_views(list@),
            forall|j: int| 0 <= j < i ==> #[trigger] views[j] != path@,
        decreases list.len() - i,
    {
        assert(views[i as int] == list@[i as int]@);
        if list[i] == *path {
            return true;
        }
        i = i + 1;
    }
    false
}

/// The files of a checkpoint that are to be deleted, each once and in order: neither kept nor
/// deleted already.
pub fn files_to_delete(
    list: &Vec<ParquetStoreData>,
    keep: &Vec<String>,
    deleted: &Vec<String>,
) -> (fresh: Vec<String>)
    ensures
        types::string_views(fresh@) == to_delete(
            types::paths_of(types::file_views(list@)),
            types::string_views(keep@),
            types::string_views(deleted@),
        ),
{
    let ghost all = types::paths_of(types::file_views(list@));
    let ghost kept = types::string_views(keep@);
    let ghost gone = types::string_views(deleted@);
    let mut fresh: Vec<String> = Vec::new();
    let mut i: usize = 0;
    assert(types::string_views(fresh@) =~= to_delete(all.take(0), kept, gone));
    while i < list.len()
        invariant
            i <= list@.len(),
            all == types::paths_of(types::file_views(list@)),
            kept == types::string_views(keep@),
            gone == types::string_views(deleted@),
            types::string_views(fresh@) == to_delete(all.take(i as int), kept, gone),
        decreases list.len() - i,
    {
        let ghost before = fresh@;
        let file: &String = &list[i].file;
        proof {
            assert(all[i as int] == file@);
            assert(all.take(i + 1).drop_last() =~= all.take(i as int));
        }
        if !contains_path(keep, file) && !contains_path(deleted, file) && !contains_path(
            &fresh,
            file,
        ) {
            fresh.push(file.clone());
            assert(types::string_views(fresh@) =~= types::string_views(before).push(file@));
        }
        i = i + 1;
    }
    assert(all.take(i as int) =~= all);
    fresh
}

/// What the compaction of an operator is at.
enum CompactionPhase {
    LoadingKept,
    LoadingEpoch,
    Deleting { rest: Vec<String> },
    Ended,
}

/// The compaction of one operator: it decides which files of its old checkpoints go.
pub struct OperatorCompaction {
    job_id: String,
    operator: String,
    next_epoch: u32,
    new_min_epoch: u32,
    paths_to_keep: Vec<String>,
    deleted_paths: Vec<String>,
    phase: CompactionPhase,
}

impl View for OperatorCompaction {
    type V = CompactionState;

    closed spec fn view(&self) -> CompactionState {
        CompactionState {
            job_id: self.job_id@,
            operator: self.operator@,
            next_epoch: self.next_epoch,
            new_min_epoch: self.new_min_epoch,
            keep: types::string_views(self.paths_to_keep@),
            deleted: types::string_views(self.deleted_paths@),
            phase: match self.phase {
                CompactionPhase::LoadingKept => Phase::LoadingKept,
                CompactionPhase::LoadingEpoch => Phase::LoadingEpoch,
                CompactionPhase::Deleting { rest } => Phase::Deleting {
                    rest: types::string_views(rest@),
                },
                CompactionPhase::Ended => Phase::Ended,
            },
        }
    }
}

impl OperatorCompaction {
    /// While there is a checkpoint to go on with, its epoch is less than the first that stays.
    pub closed spec fn wf(self) -> bool {
        match self.phase {
            CompactionPhase::LoadingEpoch => self.next_epoch < self.new_min_epoch,
            CompactionPhase::Deleting { .. } => self.next_epoch < self.new_min_epoch,
            _ => true,
        }
    }

    /// The compaction of `operator` that removes the checkpoints from `old_min_epoch` on and
    /// before `new_min_epoch`. First it asks for the metadata of the checkpoint at
    /// `new_min_epoch`.
    pub fn new(job_id: String, operator: String, old_min_epoch: u32, new_min_epoch: u32) -> (start:
        (OperatorCompaction, CompactionAction))
        ensures
            start.0.wf(),
            (start.0@, start.1@) == start_of(job_id@, operator@, old_min_epoch, new_min_epoch),
    {
        let path: String = metadata_path(
            operator_path(job_id.as_str(), new_min_epoch, operator.as_str()).as_str(),
        );
        let compaction = OperatorCompaction {
            job_id,
            operator,
            next_epoch: old_min_epoch,
            new_min_epoch,
            paths_to_keep: Vec::new(),
            deleted_paths: Vec::new(),
            phase: CompactionPhase::LoadingKept,
        };
        assert(compaction@.keep =~= Seq::empty());
        assert(compaction@.deleted =~= Seq::empty());
        (compaction, CompactionAction::Load { path })
    }

    /// Whether the compaction can take `event`.
    pub fn accepts(&self, event: &CompactionEvent) -> (accepted: bool)
        ensures
            accepted == is_accepted(self@, *event),
    {
        match (&self.phase, event) {
            (CompactionPhase::LoadingKept, CompactionEvent::Loaded(Some(entries))) => lists_parquet(
                entries,
            ),
            (CompactionPhase::LoadingEpoch, CompactionEvent::Loaded(None)) => true,
            (
                CompactionPhase::LoadingEpoch,
                CompactionEvent::Loaded(Some(entries)),
            ) => lists_parquet(entries),
            (CompactionPhase::Deleting { .. }, CompactionEvent::Deleted) => true,
            (CompactionPhase::Deleting { .. }, CompactionEvent::DeleteFailed) => true,
            _ => false,
        }
    }

    /// Goes on with the checkpoint of `epoch`.
    fn go_on(&mut self, epoch: u32) -> (action: CompactionAction)
        ensures
            final(self).wf(),
            (final(self)@, action@) == at_epoch(old(self)@, epoch),
    {
        self.next_epoch = epoch;
        if epoch < self.new_min_epoch {
            self.phase = CompactionPhase::LoadingEpoch;
            let path: String = metadata_path(
                operator_path(self.job_id.as_str(), epoch, self.operator.as_str()).as_str(),
            );
            CompactionAction::Load { path }
        } else {
            self.phase = CompactionPhase::Ended;
            CompactionAction::Finished { operator: self.operator.clone() }
        }
    }

    /// Deletes `list`, and then goes on with the next checkpoint.
    fn delete(&mut self, list: Vec<String>) -> (action: CompactionAction)
        requires
            old(self)@.next_epoch < old(self)@.new_min_epoch,
        ensures
            final(self).wf(),
            (final(self)@, action@) == deleting(old(self)@, types::string_views(list@)),
    {
        let mut list: Vec<String> = list;
        if list.len() == 0 {
            return self.go_on(self.next_epoch + 1);
        }
        let ghost all = list@;
        let file: String = list.remove(0);
        assert(types::string_views(list@) =~= types::string_views(all).drop_first());
        self.phase = CompactionPhase::Deleting { rest: list };
        CompactionAction::Delete { file }
    }

    /// Takes an event and says what is to be done next.
    pub fn step(&mut self, event: CompactionEvent) -> (action: CompactionAction)
        requires
            old(self).wf(),
            is_accepted(old(self)@, event),
        ensures
            final(self).wf(),
            (final(self)@, action@) == transition(old(self)@, event),
    {
        let mut phase: CompactionPhase = CompactionPhase::Ended;
        core::mem::swap(&mut self.phase, &mut phase);
        match (phase, event) {
            (CompactionPhase::LoadingKept, CompactionEvent::Loaded(Some(entries))) => {
                match parquet_files(entries) {
                    Some(files) => {
                        self.paths_to_keep = paths_in(&files);
                        assert(self@.keep =~= listed(entries@));
                    },
                    None => {
                        assert(false);
                    },
                }
                self.go_on(self.next_epoch)
            },
            (
                CompactionPhase::LoadingEpoch,
                CompactionEvent::Loaded(None),
            ) => self.go_on(self.next_epoch + 1),
            (CompactionPhase::LoadingEpoch, CompactionEvent::Loaded(Some(entries))) => {
                match parquet_files(entries) {
                    Some(files) => {
                        let fresh: Vec<String> = files_to_delete(
                            &files,
                            &self.paths_to_keep,
                            &self.deleted_paths,
                        );
                        let ghost chosen = types::string_views(fresh@);
                        let mut copy: Vec<String> = copy_strings(&fresh);
                        self.deleted_paths.append(&mut copy);
                        assert(self@.deleted =~= old(self)@.deleted + chosen);
                        self.delete(fresh)
                    },
                    None => {
                        assert(false);
                        CompactionAction::Fail
                    },
                }
            },
            (CompactionPhase::Deleting { rest }, CompactionEvent::Deleted) => self.delete(rest),
            (CompactionPhase::Deleting { .. }, CompactionEvent::DeleteFailed) =>
                CompactionAction::Fail,
            _ => {
                assert(false);
                CompactionAction::Fail
            },
        }
    }
}

/// Whether every entry stands for a state file.
fn lists_parquet(entries: &Vec<BackendData>) -> (all: bool)
    ensures
        all == types::all_parquet(entries@),
{
    let mut i: usize = 0;
    while i < entries.len()
        invariant
            i <= entries@.len(),
            forall|j: int| 0 <= j < i ==> (#[trigger] entries@[j]).backend_data is Some,
        decreases entries.len() - i,
    {
        if entries[i].backend_data.is_none() {
            return false;
        }
        i = i + 1;
    }
    true
}

/// Where the given files lie.
fn paths_in(files: &Vec<ParquetStoreData>) -> (paths: Vec<String>)
    ensures
        types::string_views(paths@) == types::paths_of(types::file_views(files@)),
{
    let mut paths: Vec<String> = Vec::new();
    let mut i: usize = 0;
    while i < files.len()
        invariant
            i <= files@.len(),
            paths@.len() == i,
            forall|j: int| 0 <= j < i ==> (#[trigger] paths@[j])@ == files@[j].file@,
        decreases files.len() - i,
    {
        paths.push(files[i].file.clone());
        i = i + 1;
    }
    assert(types::string_views(paths@) =~= types::paths_of(types::file_views(files@)));
    paths
}

/// The number of epochs from `first` on and before `end`.
pub open spec fn epoch_count(first: u32, end: u32) -> nat {
    if first < end {
        (end - first) as nat
    } else {
        0
    }
}

/// Where the metadata of `operator` lies for the checkpoints from `old_min_epoch` on and
/// before `min_epoch`.
pub open spec fn operator_metadata_range(
    job_id: Seq<char>,
    operator: Seq<char>,
    old_min_epoch: u32,
    min_epoch: u32,
) -> Seq<Seq<char>> {
    Seq::new(
        epoch_count(old_min_epoch, min_epoch),
        |i: int| paths::operator_metadata(job_id, (old_min_epoch + i) as u32, operator),
    )
}

/// Where the metadata of a job lies for the checkpoints from `old_min_epoch` on and before
/// `min_epoch`.
pub open spec fn checkpoint_metadata_range(
    job_id: Seq<char>,
    old_min_epoch: u32,
    min_epoch: u32,
) -> Seq<Seq<char>> {
    Seq::new(
        epoch_count(old_min_epoch, min_epoch),
        |i: int| paths::checkpoint_metadata(job_id, (old_min_epoch + i) as u32),
    )
}

/// The metadata of `operator` that goes once its files are dealt with.
pub fn old_operator_metadata(job_id: &str, operator: &str, old_min_epoch: u32, min_epoch: u32) -> (
paths: Vec<String>)
    ensures
        types::string_views(paths@) == operator_metadata_range(
            job_id@,
            operator@,
            old_min_epoch,
            min_epoch,
        ),
{
    let mut paths: Vec<String> = Vec::new();
    let mut epoch: u32 = old_min_epoch;
    while epoch < min_epoch
        invariant
            old_min_epoch <= epoch,
            old_min_epoch < min_epoch ==> epoch <= min_epoch,
            min_epoch <= old_min_epoch ==> epoch == old_min_epoch,
            paths@.len() == epoch - old_min_epoch,
            forall|i: int|
                0 <= i < paths@.len() ==> (#[trigger] paths@[i])@ == paths::operator_metadata(
                    job_id@,
                    (old_min_epoch + i) as u32,
                    operator@,
                ),
        decreases min_epoch - epoch,
    {
        paths.push(metadata_path(operator_path(job_id, epoch, operator).as_str()));
        epoch = epoch + 1;
    }
    assert(types::string_views(paths@) =~= operator_metadata_range(
        job_id@,
        operator@,
        old_min_epoch,
        min_epoch,
    ));
    paths
}

/// The metadata of a job that goes once its operators are dealt with.
pub fn old_checkpoint_metadata(job_id: &str, old_min_epoch: u32, min_epoch: u32) -> (paths: Vec<
    String,
>)
    ensures
        types::string_views(paths@) == checkpoint_metadata_range(job_id@, old_min_epoch, min_epoch),
{
    let mut paths: Vec<String> = Vec::new();
    let mut epoch: u32 = old_min_epoch;
    while epoch < min_epoch
        invariant
            old_min_epoch <= epoch,
            old_min_epoch < min_epoch ==> epoch <= min_epoch,
            min_epoch <= old_min_epoch ==> epoch == old_min_epoch,
            paths@.len() == epoch - old_min_epoch,
            forall|i: int|
                0 <= i < paths@.len() ==> (#[trigger] paths@[i])@ == paths::checkpoint_metadata(
                    job_id@,
                    (old_min_epoch + i) as u32,
                ),
        decreases min_epoch - epoch,
    {
        paths.push(metadata_path(base_path(job_id, epoch).as_str()));
        epoch = epoch + 1;
    }
    assert(types::string_views(paths@) =~= checkpoint_metadata_range(
        job_id@,
        old_min_epoch,
        min_epoch,
    ));
    paths
}

/// The metadata of a checkpoint once all before `min_epoch` are gone.
pub fn compacted(metadata: CheckpointMetadata, min_epoch: u32) -> (compacted: CheckpointMetadata)
    ensures
        compacted@ == (types::Checkpoint { min_epoch, ..metadata@ }),
{
    CheckpointMetadata { min_epoch, ..metadata }
}

/// What is to be deleted is listed, is neither kept nor deleted already, and is named once; and
/// nothing else that is listed is left over.
pub proof fn deletions_are_due(
    list: Seq<Seq<char>>,
    keep: Seq<Seq<char>>,
    deleted: Seq<Seq<char>>,
)
    ensures
        to_delete(list, keep, deleted).no_duplicates(),
        forall|path: Seq<char>| #[trigger]
            to_delete(list, keep, deleted).contains(path) <==> list.contains(path)
                && !keep.contains(path) && !deleted.contains(path),
    decreases list.len(),
{
    if list.len() > 0 {
        let rest = list.drop_last();
        let before = to_delete(rest, keep, deleted);
        let all = to_delete(list, keep, deleted);
        let last = list.last();
        deletions_are_due(rest, keep, deleted);
        assert forall|path: Seq<char>| #[trigger] all.contains(path) <==> list.contains(path)
            && !keep.contains(path) && !deleted.contains(path) by {
            if all.contains(path) {
                let i = choose|i: int| 0 <= i < all.len() && all[i] == path;
                if i < before.len() {
                    assert(before[i] == path);
                    assert(before.contains(path));
                    let j = choose|j: int| 0 <= j < rest.len() && rest[j] == path;
                    assert(list[j] == path);
                } else {
                    assert(list[list.len() - 1] == path);
                }
            }
            if list.contains(path) && !keep.contains(path) && !deleted.contains(path) {
                let j = choose|j: int| 0 <= j < list.len() && list[j] == path;
                if j < rest.len() {
                    assert(rest[j] == path);
                    assert(before.contains(path));
                }
                if before.contains(path) {
                    let i = choose|i: int| 0 <= i < before.len() && before[i] == path;
                    assert(all[i] == path);
                } else {
                    assert(all[all.len() - 1] == path);
                }
            }
        }
        assert forall|i: int, j: int| 0 <= i < all.len() && 0 <= j < all.len() && i
            != j implies all[i] != all[j] by {
            if i < before.len() && j < before.len() {
                assert(before[i] == all[i] && before[j] == all[j]);
            } else if i < before.len() {
                assert(before[i] == all[i]);
                assert(before.contains(all[i]));
            } else {
                assert(before[j] == all[j]);
                assert(before.contains(all[j]));
            }
        }
    }
}

/// What a compaction comes to, and all that it asked for, once it has taken `events`.
pub open spec fn run(state: CompactionState, events: Seq<CompactionEvent>) -> (
    CompactionState,
    Seq<Action>,
)
    decreases events.len(),
{
    if events.len() == 0 {
        (state, Seq::empty())
    } else {
        let before = run(state, events.drop_last());
        let step = transition(before.0, events.last());
        (step.0, before.1.push(step.1))
    }
}

/// Whether each of `events` can be taken when its turn comes.
pub open spec fn all_accepted(state: CompactionState, events: Seq<CompactionEvent>) -> bool
    decreases events.len(),
{
    events.len() > 0 ==> all_accepted(state, events.drop_last()) && is_accepted(
        run(state, events.drop_last()).0,
        events.last(),
    )
}

/// The files that `actions` ask to delete, in order.
pub open spec fn deletions(actions: Seq<Action>) -> Seq<Seq<char>>
    decreases actions.len(),
{
    if actions.len() == 0 {
        Seq::empty()
    } else {
        match actions.last() {
            Action::Delete { file } => deletions(actions.drop_last()).push(file),
            _ => deletions(actions.drop_last()),
        }
    }
}

/// The metadata that `actions` ask to load, in order.
pub open spec fn loads(actions: Seq<Action>) -> Seq<Seq<char>>
    decreases actions.len(),
{
    if actions.len() == 0 {
        Seq::empty()
    } else {
        match actions.last() {
            Action::Load { path } => loads(actions.drop_last()).push(path),
            _ => loads(actions.drop_last()),
        }
    }
}

/// Whether `event` brings metadata that lists `path`.
pub open spec fn brings(event: CompactionEvent, path: Seq<char>) -> bool {
    match event {
        CompactionEvent::Loaded(Some(entries)) => listed(entries@).contains(path),
        _ => false,
    }
}

/// Whether one of `events` after the first brings metadata that lists `path`.
pub open spec fn brought_later(events: Seq<CompactionEvent>, path: Seq<char>) -> bool {
    exists|j: int| 1 <= j < events.len() && #[trigger] brings(events[j], path)
}

/// Whether a compaction has just begun.
pub open spec fn is_start(state: CompactionState) -> bool {
    &&& state.phase is LoadingKept
    &&& state.keep.len() == 0
    &&& state.deleted.len() == 0
}

/// What a compaction has gathered from `events`.
spec fn is_gathered(
    start: CompactionState,
    events: Seq<CompactionEvent>,
    state: CompactionState,
) -> bool {
    &&& state.job_id == start.job_id
    &&& state.operator == start.operator
    &&& state.new_min_epoch == start.new_min_epoch
    &&& events.len() > 0 ==> forall|path: Seq<char>| #[trigger]
        state.keep.contains(path) <==> brings(events[0], path)
    &&& state.deleted.no_duplicates()
    &&& forall|path: Seq<char>| #[trigger]
        state.deleted.contains(path) <==> brought_later(events, path) && !state.keep.contains(path)
}

/// What a compaction has asked for, in relation to what it has gathered.
spec fn is_consistent(
    start: CompactionState,
    events: Seq<CompactionEvent>,
    state: CompactionState,
    actions: Seq<Action>,
) -> bool {
    &&& is_gathered(start, events, state)
    &&& actions.len() == events.len()
    &&& state.phase is LoadingKept <==> events.len() == 0
    &&& match state.phase {
        Phase::LoadingKept => {
            &&& state.next_epoch == start.next_epoch
            &&& state.deleted.len() == 0
            &&& deletions(actions) == state.deleted
            &&& loads(actions).len() == 0
        },
        Phase::LoadingEpoch => {
            &&& deletions(actions) == state.deleted
            &&& start.next_epoch <= state.next_epoch < state.new_min_epoch
            &&& loads(actions) == operator_metadata_range(
                start.job_id,
                start.operator,
                start.next_epoch,
                (state.next_epoch + 1) as u32,
            )
        },
        Phase::Deleting { rest } => {
            &&& deletions(actions) + rest == state.deleted
            &&& start.next_epoch <= state.next_epoch < state.new_min_epoch
            &&& loads(actions) == operator_metadata_range(
                start.job_id,
                start.operator,
                start.next_epoch,
                (state.next_epoch + 1) as u32,
            )
        },
        Phase::Ended => {
            &&& deletions(actions).is_prefix_of(state.deleted)
            &&& actions.last() == (Action::Finished { operator: start.operator })
                || actions.last() is Fail
            &&& actions.last() is Finished ==> {
                &&& deletions(actions) == state.deleted
                &&& loads(actions) == operator_metadata_range(
                    start.job_id,
                    start.operator,
                    start.next_epoch,
                    start.new_min_epoch,
                )
            }
        },
    }
}

/// One more event brings what it lists, and nothing else.
proof fn lemma_brought_push(events: Seq<CompactionEvent>, event: CompactionEvent)
    requires
        events.len() > 0,
    ensures
        forall|path: Seq<char>| #[trigger]
            brought_later(events.push(event), path) <==> brought_later(events, path) || brings(
                event,
                path,
            ),
{
    let all = events.push(event);
    assert forall|path: Seq<char>| #[trigger] brought_later(all, path) <==> brought_later(
        events,
        path,
    ) || brings(event, path) by {
        if brought_later(events, path) {
            let j = choose|j: int| 1 <= j < events.len() && #[trigger] brings(events[j], path);
            assert(brings(all[j], path));
        }
        if brings(event, path) {
            assert(brings(all[events.len() as int], path));
        }
        if brought_later(all, path) {
            let j = choose|j: int| 1 <= j < all.len() && #[trigger] brings(all[j], path);
            if j < events.len() {
                assert(brings(events[j], path));
            }
        }
    }
}

proof fn lemma_at_epoch(
    start: CompactionState,
    events: Seq<CompactionEvent>,
    state: CompactionState,
    actions: Seq<Action>,
    epoch: u32,
)
    requires
        is_gathered(start, events, state),
        events.len() > 0,
        actions.len() + 1 == events.len(),
        deletions(actions) == state.deleted,
        loads(actions) == operator_metadata_range(
            start.job_id,
            start.operator,
            start.next_epoch,
            epoch,
        ),
        start.next_epoch <= epoch,
        epoch <= start.new_min_epoch || epoch == start.next_epoch,
    ensures
        is_consistent(
            start,
            events,
            at_epoch(state, epoch).0,
            actions.push(at_epoch(state, epoch).1),
        ),
{
    let step = at_epoch(state, epoch);
    let all = actions.push(step.1);
    assert(all.drop_last() =~= actions);
    if epoch < state.new_min_epoch {
        let longer = operator_metadata_range(
            start.job_id,
            start.operator,
            start.next_epoch,
            (epoch + 1) as u32,
        );
        assert(loads(all) =~= longer);
    } else {
        let whole = operator_metadata_range(
            start.job_id,
            start.operator,
            start.next_epoch,
            start.new_min_epoch,
        );
        assert(loads(all) =~= whole);
    }
}

proof fn lemma_deleting(
    start: CompactionState,
    events: Seq<CompactionEvent>,
    state: CompactionState,
    actions: Seq<Action>,
    list: Seq<Seq<char>>,
)
    requires
        is_gathered(start, events, state),
        events.len() > 0,
        actions.len() + 1 == events.len(),
        deletions(actions) + list == state.deleted,
        loads(actions) == operator_metadata_range(
            start.job_id,
            start.operator,
            start.next_epoch,
            (state.next_epoch + 1) as u32,
        ),
        start.next_epoch <= state.next_epoch < start.new_min_epoch,
    ensures
        is_consistent(
            start,
            events,
            deleting(state, list).0,
            actions.push(deleting(state, list).1),
        ),
{
    let step = deleting(state, list);
    let all = actions.push(step.1);
    if list.len() == 0 {
        assert(deletions(actions) + list =~= deletions(actions));
        lemma_at_epoch(start, events, state, actions, (state.next_epoch + 1) as u32);
    } else {
        assert(all.drop_last() =~= actions);
        assert(deletions(actions).push(list[0]) + list.drop_first() =~= deletions(actions) + list);
    }
}

proof fn lemma_run(start: CompactionState, events: Seq<CompactionEvent>)
    requires
        is_start(start),
        all_accepted(start, events),
    ensures
        is_consistent(start, events, run(start, events).0, run(start, events).1),
    decreases events.len(),
{
    if events.len() == 0 {
        assert(start.deleted =~= Seq::empty());
        assert(start.keep =~= Seq::empty());
    } else {
        let earlier = events.drop_last();
        let event = events.last();
        let (state, actions) = run(start, earlier);
        lemma_run(start, earlier);
        assert(events =~= earlier.push(event));
        if earlier.len() > 0 {
            lemma_brought_push(earlier, event);
        } else {
            assert forall|path: Seq<char>| !#[trigger] brought_later(events, path) by {}
        }
        match (state.phase, event) {
            (Phase::LoadingKept, CompactionEvent::Loaded(Some(entries))) => {
                let loaded = CompactionState { keep: listed(entries@), ..state };
                assert(events[0] == event);
                assert(loads(actions) =~= operator_metadata_range(
                    start.job_id,
                    start.operator,
                    start.next_epoch,
                    start.next_epoch,
                ));
                lemma_at_epoch(start, events, loaded, actions, state.next_epoch);
            },
            (Phase::LoadingEpoch, CompactionEvent::Loaded(None)) => {
                lemma_at_epoch(start, events, state, actions, (state.next_epoch + 1) as u32);
            },
            (Phase::LoadingEpoch, CompactionEvent::Loaded(Some(entries))) => {
                let fresh = to_delete(listed(entries@), state.keep, state.deleted);
                let gathered = CompactionState { deleted: state.deleted + fresh, ..state };
                deletions_are_due(listed(entries@), state.keep, state.deleted);
                lemma_gathered(start, earlier, event, state, fresh);
                lemma_deleting(start, events, gathered, actions, fresh);
            },
            (Phase::Deleting { rest }, CompactionEvent::Deleted) => {
                lemma_deleting(start, events, state, actions, rest);
            },
            (Phase::Deleting { rest }, CompactionEvent::DeleteFailed) => {
                let all = actions.push(Action::Fail);
                assert(all.drop_last() =~= actions);
                assert(deletions(all).is_prefix_of(state.deleted));
            },
            _ => {},
        }
    }
}

/// Metadata that comes in adds to what has been gathered just the files that are to be deleted.
proof fn lemma_gathered(
    start: CompactionState,
    events: Seq<CompactionEvent>,
    event: CompactionEvent,
    state: CompactionState,
    fresh: Seq<Seq<char>>,
)
    requires
        events.len() > 0,
        is_gathered(start, events, state),
        fresh.no_duplicates(),
        forall|path: Seq<char>| #[trigger]
            fresh.contains(path) <==> brings(event, path) && !state.keep.contains(path)
                && !state.deleted.contains(path),
    ensures
        is_gathered(
            start,
            events.push(event),
            CompactionState { deleted: state.deleted + fresh, ..state },
        ),
{
    let all = state.deleted + fresh;
    lemma_brought_push(events, event);
    assert(events.push(event)[0] == events[0]);
    assert forall|path: Seq<char>| #[trigger] all.contains(path) <==> state.deleted.contains(path)
        || fresh.contains(path) by {
        if state.deleted.contains(path) {
            let i = choose|i: int| 0 <= i < state.deleted.len() && state.deleted[i] == path;
            assert(all[i] == path);
        }
        if fresh.contains(path) {
            let i = choose|i: int| 0 <= i < fresh.len() && fresh[i] == path;
            assert(all[state.deleted.len() + i] == path);
        }
    }
    assert forall|i: int, j: int| 0 <= i < all.len() && 0 <= j < all.len() && i != j implies all[i]
        != all[j] by {
        let n = state.deleted.len();
        if i < n && j >= n {
            assert(state.deleted.contains(all[i]));
            assert(fresh.contains(fresh[j - n]));
        } else if i >= n && j < n {
            assert(state.deleted.contains(all[j]));
            assert(fresh.contains(fresh[i - n]));
        }
    }
}

/// A compaction deletes no file twice, none that the first checkpoint which stays still lists,
/// and none but those that a checkpoint lists which goes.
pub proof fn compaction_spares_what_is_kept(start: CompactionState, events: Seq<CompactionEvent>)
    requires
        is_start(start),
        all_accepted(start, events),
    ensures
        deletions(run(start, events).1).no_duplicates(),
        forall|path: Seq<char>| #[trigger]
            deletions(run(start, events).1).contains(path) ==> !brings(events[0], path)
                && brought_later(events, path),
{
    lemma_run(start, events);
    let (state, actions) = run(start, events);
    let gone = deletions(actions);
    assert(forall|i: int| 0 <= i < gone.len() ==> #[trigger] gone[i] == state.deleted[i]) by {
        if let Phase::Deleting { rest } = state.phase {
            assert forall|i: int| 0 <= i < gone.len() implies #[trigger] gone[i]
                == state.deleted[i] by {
                assert((gone + rest)[i] == gone[i]);
            }
        }
    }
    assert(gone.len() <= state.deleted.len());
    assert forall|path: Seq<char>| #[trigger] gone.contains(path) implies !brings(events[0], path)
        && brought_later(events, path) by {
        let i = choose|i: int| 0 <= i < gone.len() && gone[i] == path;
        assert(state.deleted[i] == path);
        assert(state.deleted.contains(path));
    }
}

/// A compaction that has come to its end has asked for the metadata of every checkpoint that
/// goes, in the order of their epochs, and has deleted every file that one of them lists,
/// except for those that the first checkpoint which stays lists too. It says which operator it
/// was for.
pub proof fn compaction_is_complete(start: CompactionState, events: Seq<CompactionEvent>)
    requires
        is_start(start),
        all_accepted(start, events),
        run(start, events).1.len() > 0,
        run(start, events).1.last() is Finished,
    ensures
        run(start, events).1.last() == (Action::Finished { operator: start.operator }),
        loads(run(start, events).1) == operator_metadata_range(
            start.job_id,
            start.operator,
            start.next_epoch,
            start.new_min_epoch,
        ),
        forall|path: Seq<char>| #[trigger]
            brought_later(events, path) ==> brings(events[0], path) || deletions(
                run(start, events).1,
            ).contains(path),
{
    lemma_run(start, events);
    let (state, actions) = run(start, events);
    assert(state.phase is Ended);
}

/// Whether the entries of metadata name the file at `path`.
pub open spec fn names(entries: Seq<BackendData>, path: Seq<char>) -> bool {
    exists|i: int|
        0 <= i < entries.len() && (#[trigger] entries[i]).backend_data is Some
            && entries[i].backend_data->0.file@ == path
}

/// Whether the metadata that `world` has of `operator` at `epoch` names the file at `path`.
pub open spec fn is_named_at(
    world: spec_fn(Seq<char>) -> Option<Seq<BackendData>>,
    job_id: Seq<char>,
    operator: Seq<char>,
    epoch: u32,
    path: Seq<char>,
) -> bool {
    let metadata = paths::spec_base_path(job_id, epoch) + "/operator-"@ + operator + "/metadata"@;
    world(metadata) is Some && names(world(metadata)->0, path)
}

/// Whether `event` answers what was asked with what `world` has.
pub open spec fn is_answer(
    asked: Action,
    event: CompactionEvent,
    world: spec_fn(Seq<char>) -> Option<Seq<BackendData>>,
) -> bool {
    asked matches Action::Load { path } ==> match event {
        CompactionEvent::Loaded(Some(entries)) => world(path) == Some(entries@),
        CompactionEvent::Loaded(None) => world(path) is None,
        _ => false,
    }
}

/// Whether each of `events` answers what a compaction asked for last with what `world` has, from
/// its start on.
pub open spec fn all_answered(
    start: (CompactionState, Action),
    events: Seq<CompactionEvent>,
    world: spec_fn(Seq<char>) -> Option<Seq<BackendData>>,
) -> bool {
    forall|i: int|
        0 <= i < events.len() ==> is_answer(
            if i == 0 {
                start.1
            } else {
                run(start.0, events).1[i - 1]
            },
            #[trigger] events[i],
            world,
        )
}

/// The first thing that a compaction asks for is the metadata of its operator at the first epoch
/// that stays. It keeps and has deleted nothing yet, and begins with the first epoch that goes.
pub proof fn compactions_ask_first_for_what_stays(
    job_id: Seq<char>,
    operator: Seq<char>,
    old_min_epoch: u32,
    new_min_epoch: u32,
)
    ensures
        ({
            let (state, action) = start_of(job_id, operator, old_min_epoch, new_min_epoch);
            &&& action == (Action::Load {
                path: paths::spec_base_path(job_id, new_min_epoch) + "/operator-"@ + operator
                    + "/metadata"@,
            })
            &&& is_start(state)
            &&& state.job_id == job_id
            &&& state.operator == operator
            &&& state.next_epoch == old_min_epoch
            &&& state.new_min_epoch == new_min_epoch
        }),
{
    paths::metadata_lies_in_its_directory(job_id, new_min_epoch, operator);
}

proof fn lemma_named(event: CompactionEvent, path: Seq<char>)
    requires
        event matches CompactionEvent::Loaded(Some(entries)) ==> types::all_parquet(entries@),
    ensures
        brings(event, path) <==> (event matches CompactionEvent::Loaded(Some(entries)) && names(
            entries@,
            path,
        )),
{
    if let CompactionEvent::Loaded(Some(entries)) = event {
        let list = listed(entries@);
        if list.contains(path) {
            let i = choose|i: int| 0 <= i < list.len() && list[i] == path;
            assert(entries@[i].backend_data is Some);
        }
        if names(entries@, path) {
            let i = choose|i: int|
                0 <= i < entries@.len() && (#[trigger] entries@[i]).backend_data is Some
                    && entries@[i].backend_data->0.file@ == path;
            assert(list[i] == path);
        }
    }
}

/// What a compaction came to part of the way.
proof fn lemma_part_of_run(start: CompactionState, events: Seq<CompactionEvent>, n: int)
    requires
        0 <= n <= events.len(),
        all_accepted(start, events),
    ensures
        all_accepted(start, events.take(n)),
        run(start, events.take(n)).1 == run(start, events).1.take(n),
        run(start, events).1.len() == events.len(),
        n < events.len() ==> is_accepted(run(start, events.take(n)).0, events[n]),
    decreases events.len() - n,
{
    if n == events.len() {
        assert(events.take(n) =~= events);
        lemma_run_len(start, events);
        assert(run(start, events).1.take(n) =~= run(start, events).1);
    } else {
        lemma_part_of_run(start, events, n + 1);
        assert(events.take(n + 1).drop_last() =~= events.take(n));
        assert(events.take(n + 1).last() == events[n]);
        lemma_run_len(start, events.take(n));
        assert(run(start, events.take(n)).1 =~= run(start, events.take(n + 1)).1.take(n));
        assert(run(start, events).1.take(n + 1).take(n) =~= run(start, events).1.take(n));
    }
}

proof fn lemma_run_len(start: CompactionState, events: Seq<CompactionEvent>)
    ensures
        run(start, events).1.len() == events.len(),
    decreases events.len(),
{
    if events.len() > 0 {
        lemma_run_len(start, events.drop_last());
    }
}

/// While a compaction waits for metadata of an epoch that goes, it has just asked for it.
proof fn lemma_loading(start: CompactionState, events: Seq<CompactionEvent>)
    requires
        is_start(start),
        all_accepted(start, events),
        run(start, events).0.phase is LoadingEpoch,
    ensures
        events.len() > 0,
        start.next_epoch <= run(start, events).0.next_epoch < start.new_min_epoch,
        run(start, events).1.last() == (Action::Load {
            path: paths::operator_metadata(
                start.job_id,
                run(start, events).0.next_epoch,
                start.operator,
            ),
        }),
{
    lemma_run(start, events);
    lemma_run(start, events.drop_last());
}

/// Where the events are accepted, the metadata that was loaded lists state files alone.
proof fn lemma_all_parquet(start: CompactionState, events: Seq<CompactionEvent>, i: int)
    requires
        0 <= i < events.len(),
        all_accepted(start, events),
    ensures
        events[i] matches CompactionEvent::Loaded(Some(entries)) ==> types::all_parquet(entries@),
{
    lemma_part_of_run(start, events, i);
}

/// No file that the metadata of the first epoch which stays names is ever deleted.
pub proof fn files_that_stay_are_never_deleted(
    world: spec_fn(Seq<char>) -> Option<Seq<BackendData>>,
    job_id: Seq<char>,
    operator: Seq<char>,
    old_min_epoch: u32,
    new_min_epoch: u32,
    events: Seq<CompactionEvent>,
    path: Seq<char>,
)
    requires
        all_accepted(start_of(job_id, operator, old_min_epoch, new_min_epoch).0, events),
        all_answered(
            start_of(job_id, operator, old_min_epoch, new_min_epoch),
            events,
            world,
        ),
        is_named_at(world, job_id, operator, new_min_epoch, path),
    ensures
        !deletions(
            run(start_of(job_id, operator, old_min_epoch, new_min_epoch).0, events).1,
        ).contains(path),
{
    let start = start_of(job_id, operator, old_min_epoch, new_min_epoch);
    compactions_ask_first_for_what_stays(job_id, operator, old_min_epoch, new_min_epoch);
    if events.len() > 0 {
        assert(is_answer(start.1, events[0], world));
        lemma_all_parquet(start.0, events, 0);
        lemma_named(events[0], path);
    }
    compaction_spares_what_is_kept(start.0, events);
}

/// Every file that is deleted is named by the metadata of an epoch that goes.
pub proof fn only_files_that_go_are_deleted(
    world: spec_fn(Seq<char>) -> Option<Seq<BackendData>>,
    job_id: Seq<char>,
    operator: Seq<char>,
    old_min_epoch: u32,
    new_min_epoch: u32,
    events: Seq<CompactionEvent>,
    path: Seq<char>,
)
    requires
        all_accepted(start_of(job_id, operator, old_min_epoch, new_min_epoch).0, events),
        all_answered(
            start_of(job_id, operator, old_min_epoch, new_min_epoch),
            events,
            world,
        ),
        deletions(
            run(start_of(job_id, operator, old_min_epoch, new_min_epoch).0, events).1,
        ).contains(path),
    ensures
        exists|epoch: u32|
            old_min_epoch <= epoch < new_min_epoch && #[trigger] is_named_at(
                world,
                job_id,
                operator,
                epoch,
                path,
            ),
{
    let start = start_of(job_id, operator, old_min_epoch, new_min_epoch);
    compactions_ask_first_for_what_stays(job_id, operator, old_min_epoch, new_min_epoch);
    compaction_spares_what_is_kept(start.0, events);
    assert(brought_later(events, path));
    let j = choose|j: int| 1 <= j < events.len() && #[trigger] brings(events[j], path);
    lemma_part_of_run(start.0, events, j);
    let (state, actions) = run(start.0, events.take(j));
    lemma_run(start.0, events.take(j));
    assert(state.phase is LoadingEpoch);
    lemma_loading(start.0, events.take(j));
    assert(actions.last() == run(start.0, events).1[j - 1]);
    assert(is_answer(run(start.0, events).1[j - 1], events[j], world));
    lemma_all_parquet(start.0, events, j);
    lemma_named(events[j], path);
    paths::metadata_lies_in_its_directory(job_id, state.next_epoch, operator);
    assert(is_named_at(world, job_id, operator, state.next_epoch, path));
}

proof fn lemma_load_among_actions(actions: Seq<Action>, path: Seq<char>)
    requires
        loads(actions).contains(path),
    ensures
        exists|i: int| 0 <= i < actions.len() && #[trigger] actions[i] == (Action::Load { path }),
    decreases actions.len(),
{
    if actions.len() > 0 {
        let before = actions.drop_last();
        if actions.last() == (Action::Load { path }) {
            assert(actions[actions.len() - 1] == (Action::Load { path }));
        } else {
            let all = loads(actions);
            let i = choose|i: int| 0 <= i < all.len() && all[i] == path;
            assert(loads(before)[i] == path);
            lemma_load_among_actions(before, path);
            let j = choose|j: int|
                0 <= j < before.len() && #[trigger] before[j] == (Action::Load { path });
            assert(actions[j] == before[j]);
        }
    }
}

/// Once a compaction has come to its end, every file is deleted that the metadata of an epoch
/// which goes names, unless that of the first epoch which stays names it too.
pub proof fn all_files_that_go_are_deleted(
    world: spec_fn(Seq<char>) -> Option<Seq<BackendData>>,
    job_id: Seq<char>,
    operator: Seq<char>,
    old_min_epoch: u32,
    new_min_epoch: u32,
    events: Seq<CompactionEvent>,
    epoch: u32,
    path: Seq<char>,
)
    requires
        all_accepted(start_of(job_id, operator, old_min_epoch, new_min_epoch).0, events),
        all_answered(
            start_of(job_id, operator, old_min_epoch, new_min_epoch),
            events,
            world,
        ),
        events.len() > 0,
        run(start_of(job_id, operator, old_min_epoch, new_min_epoch).0, events).1.last()
            is Finished,
        old_min_epoch <= epoch < new_min_epoch,
        is_named_at(world, job_id, operator, epoch, path),
        !is_named_at(world, job_id, operator, new_min_epoch, path),
    ensures
        deletions(
            run(start_of(job_id, operator, old_min_epoch, new_min_epoch).0, events).1,
        ).contains(path),
{
    let start = start_of(job_id, operator, old_min_epoch, new_min_epoch);
    let actions = run(start.0, events).1;
    compactions_ask_first_for_what_stays(job_id, operator, old_min_epoch, new_min_epoch);
    lemma_run_len(start.0, events);
    compaction_is_complete(start.0, events);
    assert(is_answer(start.1, events[0], world));
    lemma_all_parquet(start.0, events, 0);
    lemma_named(events[0], path);
    let metadata = paths::operator_metadata(job_id, epoch, operator);
    paths::metadata_lies_in_its_directory(job_id, epoch, operator);
    every_epoch_that_goes_has_its_metadata_listed(
        job_id,
        operator,
        old_min_epoch,
        new_min_epoch,
        epoch - old_min_epoch,
    );
    assert(loads(actions)[epoch - old_min_epoch] == metadata);
    assert(loads(actions).contains(metadata));
    lemma_load_among_actions(actions, metadata);
    let i = choose|i: int|
        0 <= i < actions.len() && #[trigger] actions[i] == (Action::Load { path: metadata });
    assert(i < actions.len() - 1);
    assert(is_answer(actions[i], events[i + 1], world));
    lemma_all_parquet(start.0, events, i + 1);
    lemma_named(events[i + 1], path);
    assert(brings(events[i + 1], path));
    assert(brought_later(events, path));
}

/// The lists of old metadata name one file for each epoch that goes, in ascending order.
pub proof fn every_epoch_that_goes_has_its_metadata_listed(
    job_id: Seq<char>,
    operator: Seq<char>,
    old_min_epoch: u32,
    min_epoch: u32,
    i: int,
)
    ensures
        ({
            let count = if old_min_epoch < min_epoch {
                min_epoch - old_min_epoch
            } else {
                0
            };
            let of_operator = operator_metadata_range(job_id, operator, old_min_epoch, min_epoch);
            let of_job = checkpoint_metadata_range(job_id, old_min_epoch, min_epoch);
            &&& of_operator.len() == count
            &&& of_job.len() == count
            &&& 0 <= i < count ==> of_operator[i] == paths::spec_base_path(
                job_id,
                (old_min_epoch + i) as u32,
            ) + "/operator-"@ + operator + "/metadata"@
            &&& 0 <= i < count ==> of_job[i] == paths::spec_base_path(
                job_id,
                (old_min_epoch + i) as u32,
            ) + "/metadata"@
        }),
{
    paths::metadata_lies_in_its_directory(job_id, (old_min_epoch + i) as u32, operator);
}

/// A compaction takes an answer to what it asked for, and nothing else: metadata while it loads,
/// where only that of an epoch that goes may be missing and all entries are state files; and the
/// outcome of a deletion while it deletes.
pub proof fn compactions_take_answers_alone(state: CompactionState, event: CompactionEvent)
    ensures
        match event {
            CompactionEvent::Loaded(Some(entries)) => is_accepted(state, event) <==> (state.phase
                is LoadingKept || state.phase is LoadingEpoch) && forall|i: int|
                0 <= i < entries@.len() ==> (#[trigger] entries@[i]).backend_data is Some,
            CompactionEvent::Loaded(None) => is_accepted(state, event) <==> state.phase
                is LoadingEpoch,
            CompactionEvent::Deleted => is_accepted(state, event) <==> state.phase is Deleting,
            CompactionEvent::DeleteFailed => is_accepted(state, event) <==> state.phase is Deleting,
        },
        state.phase is Deleting && event is DeleteFailed ==> transition(state, event).1 is Fail
            && transition(state, event).0.phase is Ended,
        is_accepted(state, event) && !(event is DeleteFailed) ==> !(transition(state, event).1
            is Fail),
{
}

/// What a compaction asks for is seen as it is.
pub proof fn actions_are_seen_as_they_are(action: CompactionAction)
    ensures
        match action {
            CompactionAction::Load { path } => action@ == (Action::Load { path: path@ }),
            CompactionAction::Delete { file } => action@ == (Action::Delete { file: file@ }),
            CompactionAction::Finished { operator } => action@ == (Action::Finished {
                operator: operator@,
            }),
            CompactionAction::Fail => action@ is Fail,
        },
{
}

} // verus!
