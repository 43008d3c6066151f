//! Removing the old checkpoints of a whole job.
//!
//! Each operator is compacted on its own, in any order. Once an operator is done, the metadata
//! of its old checkpoints goes; once all are, that of the job does. Last of all it is written
//! down which checkpoint is now the first.
use vstd::multiset::Multiset;
use vstd::prelude::*;

use crate::compaction;
use crate::compaction::{
    compacted, old_checkpoint_metadata, old_operator_metadata, CompactionAction, OperatorCompaction,
};
use crate::ordered;
use crate::paths;
use crate::types;
use crate::types::{copy_strings, CheckpointMetadata};

verus! {

/// What the compaction of a job is told.
#[derive(Debug)]
pub enum JobEvent {
    /// The files of this operator are dealt with.
    OperatorCompacted(String),
    /// The files of some operator could not be dealt with.
    OperatorFailed,
    /// The file is deleted, or was not there.
    Deleted,
    /// The file could not be deleted.
    DeleteFailed,
}

/// What the compaction of a job asks for.
#[derive(Debug)]
pub enum JobAction {
    /// Wait until the next operator is compacted.
    AwaitOperator,
    /// Delete the metadata at `path` if it is there.
    Delete { path: String },
    /// Store the metadata of the checkpoint anew: the compaction is done.
    Complete(CheckpointMetadata),
    /// Give up.
    Fail,
}

/// What a [`JobAction`] says, over mathematical values.
pub enum Action {
    AwaitOperator,
    Delete { path: Seq<char> },
    Complete(types::Checkpoint),
    Fail,
}

impl View for JobAction {
    type V = Action;

    open spec fn view(&self) -> Action {
        match self {
            JobAction::AwaitOperator => Action::AwaitOperator,
            JobAction::Delete { path } => Action::Delete { path: path@ },
            JobAction::Complete(metadata) => Action::Complete(metadata@),
            JobAction::Fail => Action::Fail,
        }
    }
}

/// What the compaction of a job is at.
pub enum Phase {
    /// It waits for an operator.
    Awaiting,
    /// It deletes the metadata of an operator; `rest` is still to come.
    DeletingOperator { rest: Seq<Seq<char>> },
    /// It deletes the metadata of the job; `rest` is still to come.
    DeletingJob { rest: Seq<Seq<char>> },
    /// It has ended.
    Ended,
}

/// The state of the compaction of a job.
pub struct JobState {
    pub metadata: types::Checkpoint,
    pub old_min_epoch: u32,
    pub min_epoch: u32,
    /// The operators that are still being compacted.
    pub outstanding: Multiset<Seq<char>>,
    pub phase: Phase,
}

/// Deleting the metadata of the job, and then completing the checkpoint.
pub open spec fn deleting_job(state: JobState, list: Seq<Seq<char>>) -> (JobState, Action) {
    if list.len() == 0 {
        (
            JobState { phase: Phase::Ended, ..state },
            Action::Complete(
                types::Checkpoint { min_epoch: state.min_epoch, ..state.metadata },
            ),
        )
    } else {
        (
            JobState { phase: Phase::DeletingJob { rest: list.drop_first() }, ..state },
            Action::Delete { path: list[0] },
        )
    }
}

/// Waiting for the next operator; the metadata of the job goes once there is none.
pub open spec fn awaiting(state: JobState) -> (JobState, Action) {
    if state.outstanding.len() > 0 {
        (JobState { phase: Phase::Awaiting, ..state }, Action::AwaitOperator)
    } else {
        deleting_job(
            state,
            compaction::checkpoint_metadata_range(
                state.metadata.job_id,
                state.old_min_epoch,
                state.min_epoch,
            ),
        )
    }
}

/// Deleting the metadata of an operator, and then waiting for the next.
pub open spec fn deleting_operator(state: JobState, list: Seq<Seq<char>>) -> (JobState, Action) {
    if list.len() == 0 {
        awaiting(state)
    } else {
        (
            JobState { phase: Phase::DeletingOperator { rest: list.drop_first() }, ..state },
            Action::Delete { path: list[0] },
        )
    }
}

/// What the compaction does on an event that it accepts.
pub open spec fn transition(state: JobState, event: JobEvent) -> (JobState, Action) {
    match (state.phase, event) {
        (Phase::Awaiting, JobEvent::OperatorCompacted(operator)) => deleting_operator(
            JobState { outstanding: state.outstanding.remove(operator@), ..state },
            compaction::operator_metadata_range(
                state.metadata.job_id,
                operator@,
                state.old_min_epoch,
                state.min_epoch,
            ),
        ),
        (Phase::DeletingOperator { rest }, JobEvent::Deleted) => deleting_operator(state, rest),
        (Phase::DeletingJob { rest }, JobEvent::Deleted) => deleting_job(state, rest),
        _ => (JobState { phase: Phase::Ended, ..state }, Action::Fail),
    }
}

/// The events that a compaction can take: those that answer what it asked for last. An operator
/// that was compacted has to be one that is awaited.
pub open spec fn is_accepted(state: JobState, event: JobEvent) -> bool {
    match (state.phase, event) {
        (Phase::Awaiting, JobEvent::OperatorCompacted(operator)) => state.outstanding.contains(
            operator@,
        ),
        (Phase::Awaiting, JobEvent::OperatorFailed) => true,
        (Phase::DeletingOperator { .. }, JobEvent::Deleted) => true,
        (Phase::DeletingOperator { .. }, JobEvent::DeleteFailed) => true,
        (Phase::DeletingJob { .. }, JobEvent::Deleted) => true,
        (Phase::DeletingJob { .. }, JobEvent::DeleteFailed) => true,
        _ => false,
    }
}

/// Where `name` first stands in `list`.
fn position(list: &Vec<String>, name: &String) -> (found: Option<usize>)
    ensures
        match found {
            Some(i) => i < list@.len() && types::string_views(list@)[i as int] == name@,
            None => !types::string_views(list@).contains(name@),
        },
{
    let ghost views = types::string_views(list@);
    let mut i: usize = 0;
    while i < list.len()
        invariant
            i <= list@.len(),
            views == types::string_views(list@),
            forall|j: int| 0 <= j < i ==> #[trigger] views[j] != name@,
        decreases list.len() - i,
    {
        assert(views[i as int] == list@[i as int]@);
        if list[i] == *name {
            return Some(i);
        }
        i = i + 1;
    }
    None
}

/// What the compaction of a job is at.
enum JobPhase {
    Awaiting,
    DeletingOperator { rest: Vec<String> },
    DeletingJob { rest: Vec<String> },
    Ended,
}

/// The compaction of the checkpoints of a job.
pub struct CheckpointCompaction {
    metadata: CheckpointMetadata,
    old_min_epoch: u32,
    min_epoch: u32,
    outstanding: Vec<String>,
    phase: JobPhase,
}

impl View for CheckpointCompaction {
    type V = JobState;

    closed spec fn view(&self) -> JobState {
        JobState {
            metadata: self.metadata@,
            old_min_epoch: self.old_min_epoch,
            min_epoch: self.min_epoch,
            outstanding: types::string_views(self.outstanding@).to_multiset(),
            phase: match self.phase {
                JobPhase::Awaiting => Phase::Awaiting,
                JobPhase::DeletingOperator { rest } => Phase::DeletingOperator {
                    rest: types::string_views(rest@),
                },
                JobPhase::DeletingJob { rest } => Phase::DeletingJob {
                    rest: types::string_views(rest@),
                },
                JobPhase::Ended => Phase::Ended,
            },
        }
    }
}

impl CheckpointCompaction {
    /// While an operator is awaited, there is one.
    pub closed spec fn wf(self) -> bool {
        self.phase is Awaiting ==> self.outstanding@.len() > 0
    }

    /// The compaction that removes the checkpoints from `old_min_epoch` on and before
    /// `min_epoch`. All operators of the job are to be compacted meanwhile.
    pub fn new(metadata: CheckpointMetadata, old_min_epoch: u32, min_epoch: u32) -> (start: (
        CheckpointCompaction,
        JobAction,
    ))
        ensures
            start.0.wf(),
            (start.0@, start.1@) == awaiting(
                JobState {
                    metadata: metadata@,
                    old_min_epoch,
                    min_epoch,
                    outstanding: metadata@.operator_ids.to_multiset(),
                    phase: Phase::Awaiting,
                },
            ),
    {
        let outstanding: Vec<String> = copy_strings(&metadata.operator_ids);
        let mut compaction = CheckpointCompaction {
            metadata,
            old_min_epoch,
            min_epoch,
            outstanding,
            phase: JobPhase::Ended,
        };
        let action: JobAction = compaction.await_operator();
        (compaction, action)
    }

    /// The compactions of the operators of the job, each with what it asks for first, in the
    /// order in which the job names the operators.
    pub fn operator_compactions(&self) -> (list: Vec<(OperatorCompaction, CompactionAction)>)
        ensures
            list@.len() == self@.metadata.operator_ids.len(),
            forall|i: int|
                0 <= i < list@.len() ==> (#[trigger] list@[i]).0.wf() && (list@[i].0@, list@[i].1@)
                    == compaction::start_of(
                    self@.metadata.job_id,
                    self@.metadata.operator_ids[i],
                    self@.old_min_epoch,
                    self@.min_epoch,
                ),
    {
        let operators: &Vec<String> = &self.metadata.operator_ids;
        let ghost names = self@.metadata.operator_ids;
        let mut list: Vec<(OperatorCompaction, CompactionAction)> = Vec::new();
        let mut i: usize = 0;
        while i < operators.len()
            invariant
                i <= operators@.len(),
                list@.len() == i,
                names == types::string_views(operators@),
                forall|j: int|
                    0 <= j < i ==> (#[trigger] list@[j]).0.wf() && (list@[j].0@, list@[j].1@)
                        == compaction::start_of(
                        self.metadata.job_id@,
                        names[j],
                        self.old_min_epoch,
                        self.min_epoch,
                    ),
            decreases operators.len() - i,
        {
            list.push(
                OperatorCompaction::new(
                    self.metadata.job_id.clone(),
                    operators[i].clone(),
                    self.old_min_epoch,
                    self.min_epoch,
                ),
            );
            i = i + 1;
        }
        list
    }

    /// Whether the compaction can take `event`.
    pub fn accepts(&self, event: &JobEvent) -> (accepted: bool)
        ensures
            accepted == is_accepted(self@, *event),
    {
        match (&self.phase, event) {
            (JobPhase::Awaiting, JobEvent::OperatorCompacted(operator)) => {
                proof {
                    vstd::seq_lib::to_multiset_contains(
                        types::string_views(self.outstanding@),
                        operator@,
                    );
                }
                position(&self.outstanding, operator).is_some()
            },
            (JobPhase::Awaiting, JobEvent::OperatorFailed) => true,
            (JobPhase::DeletingOperator { .. }, JobEvent::Deleted) => true,
            (JobPhase::DeletingOperator { .. }, JobEvent::DeleteFailed) => true,
            (JobPhase::DeletingJob { .. }, JobEvent::Deleted) => true,
            (JobPhase::DeletingJob { .. }, JobEvent::DeleteFailed) => true,
            _ => false,
        }
    }

    /// Waits for the next operator, or goes on with the metadata of the job.
    fn await_operator(&mut self) -> (action: JobAction)
        ensures
            final(self).wf(),
            (final(self)@, action@) == awaiting(old(self)@),
    {
        proof {
            vstd::seq_lib::to_multiset_len(types::string_views(self.outstanding@));
        }
        if self.outstanding.len() > 0 {
            self.phase = JobPhase::Awaiting;
            JobAction::AwaitOperator
        } else {
            let list: Vec<String> = old_checkpoint_metadata(
                self.metadata.job_id.as_str(),
                self.old_min_epoch,
                self.min_epoch,
            );
            self.delete_job(list)
        }
    }

    /// Deletes the metadata of the job, and then completes the checkpoint.
    fn delete_job(&mut self, list: Vec<String>) -> (action: JobAction)
        ensures
            final(self).wf(),
            (final(self)@, action@) == deleting_job(old(self)@, types::string_views(list@)),
    {
        let mut list: Vec<String> = list;
        if list.len() == 0 {
            self.phase = JobPhase::Ended;
            return JobAction::Complete(compacted(self.metadata.clone(), self.min_epoch));
        }
        let ghost all = list@;
        let path: String = list.remove(0);
        assert(types::string_views(list@) =~= types::string_views(all).drop_first());
        self.phase = JobPhase::DeletingJob { rest: list };
        JobAction::Delete { path }
    }

    /// Deletes the metadata of an operator, and then waits for the next.
    fn delete_operator(&mut self, list: Vec<String>) -> (action: JobAction)
        ensures
            final(self).wf(),
            (final(self)@, action@) == deleting_operator(old(self)@, types::string_views(list@)),
    {
        let mut list: Vec<String> = list;
        if list.len() == 0 {
            return self.await_operator();
        }
        let ghost all = list@;
        let path: String = list.remove(0);
        assert(types::string_views(list@) =~= types::string_views(all).drop_first());
        self.phase = JobPhase::DeletingOperator { rest: list };
        JobAction::Delete { path }
    }

    /// Takes an event and says what is to be done next.
    pub fn step(&mut self, event: JobEvent) -> (action: JobAction)
        requires
            old(self).wf(),
            is_accepted(old(self)@, event),
        ensures
            final(self).wf(),
            (final(self)@, action@) == transition(old(self)@, event),
    {
        let mut phase: JobPhase = JobPhase::Ended;
        core::mem::swap(&mut self.phase, &mut phase);
        match (phase, event) {
            (JobPhase::Awaiting, JobEvent::OperatorCompacted(operator)) => {
                let ghost names = types::string_views(self.outstanding@);
                proof {
                    vstd::seq_lib::to_multiset_contains(names, operator@);
                }
                match position(&self.outstanding, &operator) {
                    Some(i) => {
                        self.outstanding.remove(i);
                        proof {
                            assert(types::string_views(self.outstanding@) =~= names.remove(
                                i as int,
                            ));
                            vstd::seq_lib::to_multiset_remove(names, i as int);
                        }
                    },
                    None => {
                        assert(false);
                    },
                }
                let list: Vec<String> = old_operator_metadata(
                    self.metadata.job_id.as_str(),
                    operator.as_str(),
                    self.old_min_epoch,
                    self.min_epoch,
                );
                self.delete_operator(list)
            },
            (JobPhase::DeletingOperator { rest }, JobEvent::Deleted) => self.delete_operator(rest),
            (JobPhase::DeletingJob { rest }, JobEvent::Deleted) => self.delete_job(rest),
            _ => JobAction::Fail,
        }
    }
}

/// What the compaction of a job comes to, and all that it asked for, once it has taken
/// `events`. `begin` is its state at the start.
pub open spec fn run(begin: JobState, events: Seq<JobEvent>) -> (JobState, Seq<Action>)
    decreases events.len(),
{
    if events.len() == 0 {
        (awaiting(begin).0, seq![awaiting(begin).1])
    } else {
        let before = run(begin, events.drop_last());
        let step = transition(before.0, events.last());
        (step.0, before.1.push(step.1))
    }
}

/// Whether each of `events` can be taken when its turn comes.
pub open spec fn all_accepted(begin: JobState, events: Seq<JobEvent>) -> bool
    decreases events.len(),
{
    events.len() > 0 ==> all_accepted(begin, events.drop_last()) && is_accepted(
        run(begin, events.drop_last()).0,
        events.last(),
    )
}

/// The operators that were compacted, in order.
pub open spec fn compacted_operators(events: Seq<JobEvent>) -> Seq<Seq<char>>
    decreases events.len(),
{
    if events.len() == 0 {
        Seq::empty()
    } else {
        match events.last() {
            JobEvent::OperatorCompacted(operator) => compacted_operators(events.drop_last()).push(
                operator@,
            ),
            _ => compacted_operators(events.drop_last()),
        }
    }
}

/// The metadata that `actions` ask to delete, in order.
pub open spec fn deletions(actions: Seq<Action>) -> Seq<Seq<char>>
    decreases actions.len(),
{
    if actions.len() == 0 {
        Seq::empty()
    } else {
        match actions.last() {
            Action::Delete { path } => deletions(actions.drop_last()).push(path),
            _ => deletions(actions.drop_last()),
        }
    }
}

/// The old metadata of `operators`, one operator behind the other.
pub open spec fn metadata_of_operators(begin: JobState, operators: Seq<Seq<char>>) -> Seq<Seq<char>> {
    ordered::concat(
        operators.map_values(
            |operator: Seq<char>|
                compaction::operator_metadata_range(
                    begin.metadata.job_id,
                    operator,
                    begin.old_min_epoch,
                    begin.min_epoch,
                ),
        ),
    )
}

/// The old metadata of `operators`, and then that of the job.
pub open spec fn all_old_metadata(begin: JobState, operators: Seq<Seq<char>>) -> Seq<Seq<char>> {
    metadata_of_operators(begin, operators) + compaction::checkpoint_metadata_range(
        begin.metadata.job_id,
        begin.old_min_epoch,
        begin.min_epoch,
    )
}

/// What the compaction of a job has asked for, in relation to what it was told.
spec fn is_consistent(
    begin: JobState,
    operators: Seq<Seq<char>>,
    state: JobState,
    actions: Seq<Action>,
) -> bool {
    &&& state == (JobState { outstanding: state.outstanding, phase: state.phase, ..begin })
    &&& state.outstanding.add(operators.to_multiset()) == begin.outstanding
    &&& actions.len() > 0
    &&& state.outstanding.len() > 0 ==> deletions(actions).len() <= metadata_of_operators(
        begin,
        operators,
    ).len()
    &&& match state.phase {
        Phase::Awaiting => {
            &&& actions.last() is AwaitOperator
            &&& state.outstanding.len() > 0
            &&& deletions(actions) == metadata_of_operators(begin, operators)
        },
        Phase::DeletingOperator { rest } => {
            &&& actions.last() is Delete
            &&& deletions(actions) + rest == metadata_of_operators(begin, operators)
        },
        Phase::DeletingJob { rest } => {
            &&& actions.last() is Delete
            &&& state.outstanding.len() == 0
            &&& deletions(actions) + rest == all_old_metadata(begin, operators)
        },
        Phase::Ended => {
            &&& deletions(actions).is_prefix_of(all_old_metadata(begin, operators))
            &&& match actions.last() {
                Action::Complete(metadata) => {
                    &&& state.outstanding.len() == 0
                    &&& deletions(actions) == all_old_metadata(begin, operators)
                    &&& metadata == (types::Checkpoint {
                        min_epoch: begin.min_epoch,
                        ..begin.metadata
                    })
                },
                Action::Fail => true,
                _ => false,
            }
        },
    }
}

proof fn lemma_deleting_job(
    begin: JobState,
    operators: Seq<Seq<char>>,
    state: JobState,
    actions: Seq<Action>,
    list: Seq<Seq<char>>,
)
    requires
        state == (JobState { outstanding: state.outstanding, phase: state.phase, ..begin }),
        state.outstanding.add(operators.to_multiset()) == begin.outstanding,
        state.outstanding.len() == 0,
        deletions(actions) + list == all_old_metadata(begin, operators),
    ensures
        is_consistent(
            begin,
            operators,
            deleting_job(state, list).0,
            actions.push(deleting_job(state, list).1),
        ),
{
    let all = actions.push(deleting_job(state, list).1);
    assert(all.drop_last() =~= actions);
    if list.len() == 0 {
        assert(deletions(actions) + list =~= deletions(actions));
    } else {
        assert(deletions(actions).push(list[0]) + list.drop_first() =~= deletions(actions) + list);
    }
}

proof fn lemma_awaiting(
    begin: JobState,
    operators: Seq<Seq<char>>,
    state: JobState,
    actions: Seq<Action>,
)
    requires
        state == (JobState { outstanding: state.outstanding, phase: state.phase, ..begin }),
        state.outstanding.add(operators.to_multiset()) == begin.outstanding,
        deletions(actions) == metadata_of_operators(begin, operators),
    ensures
        is_consistent(
            begin,
            operators,
            awaiting(state).0,
            actions.push(awaiting(state).1),
        ),
{
    let all = actions.push(awaiting(state).1);
    assert(all.drop_last() =~= actions);
    if state.outstanding.len() == 0 {
        lemma_deleting_job(
            begin,
            operators,
            state,
            actions,
            compaction::checkpoint_metadata_range(
                begin.metadata.job_id,
                begin.old_min_epoch,
                begin.min_epoch,
            ),
        );
    }
}

proof fn lemma_deleting_operator(
    begin: JobState,
    operators: Seq<Seq<char>>,
    state: JobState,
    actions: Seq<Action>,
    list: Seq<Seq<char>>,
)
    requires
        state == (JobState { outstanding: state.outstanding, phase: state.phase, ..begin }),
        state.outstanding.add(operators.to_multiset()) == begin.outstanding,
        deletions(actions) + list == metadata_of_operators(begin, operators),
    ensures
        is_consistent(
            begin,
            operators,
            deleting_operator(state, list).0,
            actions.push(deleting_operator(state, list).1),
        ),
{
    let all = actions.push(deleting_operator(state, list).1);
    assert(all.drop_last() =~= actions);
    if list.len() == 0 {
        assert(deletions(actions) + list =~= deletions(actions));
        lemma_awaiting(begin, operators, state, actions);
    } else {
        assert(deletions(actions).push(list[0]) + list.drop_first() =~= deletions(actions) + list);
    }
}

proof fn lemma_run(begin: JobState, events: Seq<JobEvent>)
    requires
        all_accepted(begin, events),
    ensures
        is_consistent(
            begin,
            compacted_operators(events),
            run(begin, events).0,
            run(begin, events).1,
        ),
    decreases events.len(),
{
    if events.len() == 0 {
        let none = Seq::<Seq<char>>::empty();
        let range = |operator: Seq<char>|
            compaction::operator_metadata_range(
                begin.metadata.job_id,
                operator,
                begin.old_min_epoch,
                begin.min_epoch,
            );
        assert(none.map_values(range) =~= Seq::<Seq<Seq<char>>>::empty());
        assert(metadata_of_operators(begin, none) =~= none);
        vstd::seq_lib::to_multiset_len(none);
        assert(none.to_multiset() =~= Multiset::empty());
        assert(begin.outstanding.add(none.to_multiset()) =~= begin.outstanding);
        lemma_awaiting(begin, none, begin, Seq::empty());
        assert(Seq::<Action>::empty().push(awaiting(begin).1) =~= seq![awaiting(begin).1]);
    } else {
        let event = events.last();
        let (state, actions) = run(begin, events.drop_last());
        let operators = compacted_operators(events.drop_last());
        lemma_run(begin, events.drop_last());
        match (state.phase, event) {
            (Phase::Awaiting, JobEvent::OperatorCompacted(operator)) => {
                let range = |operator: Seq<char>|
                    compaction::operator_metadata_range(
                        begin.metadata.job_id,
                        operator,
                        begin.old_min_epoch,
                        begin.min_epoch,
                    );
                let list = range(operator@);
                assert(operators.push(operator@).map_values(range) =~= operators.map_values(
                    range,
                ).push(list));
                ordered::lemma_concat_push(operators.map_values(range), list);
                vstd::seq_lib::to_multiset_build(operators, operator@);
                assert(state.outstanding.remove(operator@).add(
                    operators.push(operator@).to_multiset(),
                ) =~= state.outstanding.add(operators.to_multiset()));
                lemma_deleting_operator(
                    begin,
                    operators.push(operator@),
                    JobState { outstanding: state.outstanding.remove(operator@), ..state },
                    actions,
                    list,
                );
            },
            (Phase::DeletingOperator { rest }, JobEvent::Deleted) => {
                lemma_deleting_operator(begin, operators, state, actions, rest);
            },
            (Phase::DeletingJob { rest }, JobEvent::Deleted) => {
                lemma_deleting_job(begin, operators, state, actions, rest);
            },
            _ => {
                let all = actions.push(Action::Fail);
                assert(all.drop_last() =~= actions);
                lemma_prefix(begin, operators, state, actions);
            },
        }
    }
}

/// What was asked for so far is the beginning of all that is to be deleted.
proof fn lemma_prefix(
    begin: JobState,
    operators: Seq<Seq<char>>,
    state: JobState,
    actions: Seq<Action>,
)
    requires
        is_consistent(begin, operators, state, actions),
    ensures
        deletions(actions).is_prefix_of(all_old_metadata(begin, operators)),
{
    let gone = deletions(actions);
    let all = all_old_metadata(begin, operators);
    match state.phase {
        Phase::DeletingOperator { rest } => {
            assert(metadata_of_operators(begin, operators).len() == gone.len() + rest.len());
            assert forall|i: int| 0 <= i < gone.len() implies gone[i] == all[i] by {
                assert((gone + rest)[i] == gone[i]);
            }
            assert(gone =~= all.take(gone.len() as int));
        },
        Phase::DeletingJob { rest } => {
            assert(all.len() == gone.len() + rest.len());
            assert forall|i: int| 0 <= i < gone.len() implies gone[i] == all[i] by {
                assert((gone + rest)[i] == gone[i]);
            }
            assert(gone =~= all.take(gone.len() as int));
        },
        Phase::Awaiting => {
            assert(gone =~= all.take(gone.len() as int));
        },
        Phase::Ended => {},
    }
}

/// Whether the compaction of a job has just begun: all its operators are awaited.
pub open spec fn is_begin(begin: JobState) -> bool {
    begin.outstanding == begin.metadata.operator_ids.to_multiset()
}

/// When the compaction of a job completes, each operator of the job was compacted, and as often
/// as the job names it. The old metadata of each was deleted as soon as it was, and last of all
/// that of the job; and what is stored differs from the metadata at the start in the first
/// epoch that stays alone.
pub proof fn completion_comes_last(begin: JobState, events: Seq<JobEvent>)
    requires
        is_begin(begin),
        all_accepted(begin, events),
        run(begin, events).1.last() is Complete,
    ensures
        compacted_operators(events).to_multiset() == begin.metadata.operator_ids.to_multiset(),
        deletions(run(begin, events).1) == all_old_metadata(begin, compacted_operators(events)),
        run(begin, events).1.last() == Action::Complete(
            types::Checkpoint { min_epoch: begin.min_epoch, ..begin.metadata },
        ),
{
    let operators = compacted_operators(events);
    let state = run(begin, events).0;
    lemma_run(begin, events);
    assert(state.outstanding =~= Multiset::empty());
    assert(state.outstanding.add(operators.to_multiset()) =~= operators.to_multiset());
}

/// Whatever was compacted is an operator of the job.
proof fn lemma_operators_of_job(begin: JobState, events: Seq<JobEvent>)
    requires
        is_begin(begin),
        all_accepted(begin, events),
    ensures
        forall|operator: Seq<char>| #[trigger]
            compacted_operators(events).contains(operator)
                ==> begin.metadata.operator_ids.contains(operator),
{
    let operators = compacted_operators(events);
    let state = run(begin, events).0;
    lemma_run(begin, events);
    assert forall|operator: Seq<char>| #[trigger]
        operators.contains(operator) implies begin.metadata.operator_ids.contains(operator) by {
        vstd::seq_lib::to_multiset_contains(operators, operator);
        vstd::seq_lib::to_multiset_contains(begin.metadata.operator_ids, operator);
        assert(state.outstanding.add(operators.to_multiset()).count(operator) > 0);
    }
}

/// Whether `path` is metadata of the job or of one of its operators at `epoch`.
pub open spec fn is_metadata_at(metadata: types::Checkpoint, epoch: u32, path: Seq<char>) -> bool {
    ||| path == paths::checkpoint_metadata(metadata.job_id, epoch)
    ||| exists|operator: Seq<char>|
        metadata.operator_ids.contains(operator) && path == #[trigger] paths::operator_metadata(
            metadata.job_id,
            epoch,
            operator,
        )
}

/// Whether `path` is metadata of the job or of one of its operators at an epoch from
/// `old_min_epoch` on and before `min_epoch`.
pub open spec fn is_old_metadata(begin: JobState, path: Seq<char>) -> bool {
    exists|epoch: u32|
        begin.old_min_epoch <= epoch < begin.min_epoch && #[trigger] is_metadata_at(
            begin.metadata,
            epoch,
            path,
        )
}

proof fn lemma_old_operator_metadata(begin: JobState, operators: Seq<Seq<char>>, path: Seq<char>)
    requires
        forall|operator: Seq<char>| #[trigger]
            operators.contains(operator) ==> begin.metadata.operator_ids.contains(operator),
        metadata_of_operators(begin, operators).contains(path),
    ensures
        is_old_metadata(begin, path),
    decreases operators.len(),
{
    let range = |operator: Seq<char>|
        compaction::operator_metadata_range(
            begin.metadata.job_id,
            operator,
            begin.old_min_epoch,
            begin.min_epoch,
        );
    let lists = operators.map_values(range);
    if operators.len() > 0 {
        let before = operators.drop_last();
        let last = range(operators.last());
        assert(lists.drop_last() =~= before.map_values(range));
        let all = metadata_of_operators(begin, operators);
        assert(all == metadata_of_operators(begin, before) + last);
        let i = choose|i: int| 0 <= i < all.len() && all[i] == path;
        let n = metadata_of_operators(begin, before).len();
        if i < n {
            assert(metadata_of_operators(begin, before)[i] == path);
            assert forall|operator: Seq<char>| #[trigger] before.contains(operator) implies
                begin.metadata.operator_ids.contains(operator) by {
                let j = choose|j: int| 0 <= j < before.len() && before[j] == operator;
                assert(operators[j] == operator);
                assert(operators.contains(operator));
            }
            lemma_old_operator_metadata(begin, before, path);
        } else {
            assert(last[i - n] == path);
            let epoch = (begin.old_min_epoch + (i - n)) as u32;
            assert(operators[operators.len() - 1] == operators.last());
            assert(operators.contains(operators.last()));
            assert(path == paths::operator_metadata(
                begin.metadata.job_id,
                epoch,
                operators.last(),
            ));
            assert(is_metadata_at(begin.metadata, epoch, path));
        }
    }
}

/// The compaction of a job deletes nothing but metadata of that job and its operators, and
/// only of epochs before the first that stays.
pub proof fn only_old_metadata_goes(begin: JobState, events: Seq<JobEvent>, path: Seq<char>)
    requires
        is_begin(begin),
        all_accepted(begin, events),
        deletions(run(begin, events).1).contains(path),
    ensures
        is_old_metadata(begin, path),
{
    let (state, actions) = run(begin, events);
    let operators = compacted_operators(events);
    let gone = deletions(actions);
    let all = all_old_metadata(begin, operators);
    lemma_run(begin, events);
    lemma_prefix(begin, operators, state, actions);
    lemma_operators_of_job(begin, events);
    let i = choose|i: int| 0 <= i < gone.len() && gone[i] == path;
    assert(all[i] == path);
    let n = metadata_of_operators(begin, operators).len();
    if i < n {
        assert(metadata_of_operators(begin, operators)[i] == path);
        lemma_old_operator_metadata(begin, operators, path);
    } else {
        let epoch = (begin.old_min_epoch + (i - n)) as u32;
        assert(path == paths::checkpoint_metadata(begin.metadata.job_id, epoch));
        assert(is_metadata_at(begin.metadata, epoch, path));
    }
}

/// The metadata of a checkpoint that stays, and that of its operators, is never deleted.
pub proof fn metadata_that_stays_is_spared(
    begin: JobState,
    events: Seq<JobEvent>,
    epoch: u32,
    operator: Seq<char>,
)
    requires
        is_begin(begin),
        all_accepted(begin, events),
        epoch >= begin.min_epoch,
    ensures
        !deletions(run(begin, events).1).contains(
            paths::checkpoint_metadata(begin.metadata.job_id, epoch),
        ),
        !deletions(run(begin, events).1).contains(
            paths::operator_metadata(begin.metadata.job_id, epoch, operator),
        ),
{
    let job_id = begin.metadata.job_id;
    let gone = deletions(run(begin, events).1);
    let of_job = paths::checkpoint_metadata(job_id, epoch);
    let of_operator = paths::operator_metadata(job_id, epoch, operator);
    if gone.contains(of_job) {
        only_old_metadata_goes(begin, events, of_job);
        let e = choose|e: u32|
            begin.old_min_epoch <= e < begin.min_epoch && is_metadata_at(begin.metadata, e, of_job);
        if of_job == paths::checkpoint_metadata(job_id, e) {
            paths::metadata_files_differ(
                paths::spec_base_path(job_id, epoch),
                paths::spec_base_path(job_id, e),
            );
            paths::checkpoint_directories_differ(job_id, epoch, job_id, e);
        } else {
            let o = choose|o: Seq<char>|
                begin.metadata.operator_ids.contains(o) && of_job
                    == #[trigger] paths::operator_metadata(job_id, e, o);
            paths::operator_metadata_is_no_checkpoint_metadata(job_id, epoch, e, o);
        }
    }
    if gone.contains(of_operator) {
        only_old_metadata_goes(begin, events, of_operator);
        let e = choose|e: u32|
            begin.old_min_epoch <= e < begin.min_epoch && is_metadata_at(begin.metadata, e, of_operator);
        if of_operator == paths::checkpoint_metadata(job_id, e) {
            paths::operator_metadata_is_no_checkpoint_metadata(job_id, e, epoch, operator);
        } else {
            let o = choose|o: Seq<char>|
                begin.metadata.operator_ids.contains(o) && of_operator
                    == #[trigger] paths::operator_metadata(job_id, e, o);
            paths::metadata_files_differ(
                paths::spec_operator_path(job_id, epoch, operator),
                paths::spec_operator_path(job_id, e, o),
            );
            paths::operator_directories_differ(job_id, epoch, operator, e, o);
        }
    }
}

/// When the compaction of a job completes, the metadata of the job and of each of its operators
/// is deleted for every epoch that goes.
pub proof fn completion_means_all_old_metadata_is_gone(
    begin: JobState,
    events: Seq<JobEvent>,
    epoch: u32,
    operator: Seq<char>,
)
    requires
        is_begin(begin),
        all_accepted(begin, events),
        run(begin, events).1.last() is Complete,
        begin.old_min_epoch <= epoch < begin.min_epoch,
    ensures
        deletions(run(begin, events).1).contains(
            paths::spec_base_path(begin.metadata.job_id, epoch) + "/metadata"@,
        ),
        begin.metadata.operator_ids.contains(operator) ==> deletions(
            run(begin, events).1,
        ).contains(
            paths::spec_base_path(begin.metadata.job_id, epoch) + "/operator-"@ + operator
                + "/metadata"@,
        ),
{
    let operators = compacted_operators(events);
    let i = epoch - begin.old_min_epoch;
    let all = all_old_metadata(begin, operators);
    let n = metadata_of_operators(begin, operators).len();
    let job_id = begin.metadata.job_id;
    completion_comes_last(begin, events);
    compaction::every_epoch_that_goes_has_its_metadata_listed(
        job_id,
        operator,
        begin.old_min_epoch,
        begin.min_epoch,
        i,
    );
    assert(all[n + i] == paths::spec_base_path(job_id, epoch) + "/metadata"@);
    if begin.metadata.operator_ids.contains(operator) {
        let list = compaction::operator_metadata_range(
            job_id,
            operator,
            begin.old_min_epoch,
            begin.min_epoch,
        );
        vstd::seq_lib::to_multiset_contains(begin.metadata.operator_ids, operator);
        vstd::seq_lib::to_multiset_contains(operators, operator);
        assert(list.contains(list[i]));
        lemma_metadata_of_operator(begin, operators, operator, list[i]);
        let j = choose|j: int|
            0 <= j < n && metadata_of_operators(begin, operators)[j] == list[i];
        assert(all[j] == list[i]);
    }
}

proof fn lemma_metadata_of_operator(
    begin: JobState,
    operators: Seq<Seq<char>>,
    operator: Seq<char>,
    path: Seq<char>,
)
    requires
        operators.contains(operator),
        compaction::operator_metadata_range(
            begin.metadata.job_id,
            operator,
            begin.old_min_epoch,
            begin.min_epoch,
        ).contains(path),
    ensures
        metadata_of_operators(begin, operators).contains(path),
    decreases operators.len(),
{
    let range = |operator: Seq<char>|
        compaction::operator_metadata_range(
            begin.metadata.job_id,
            operator,
            begin.old_min_epoch,
            begin.min_epoch,
        );
    let before = operators.drop_last();
    let last = range(operators.last());
    let earlier = metadata_of_operators(begin, before);
    let all = metadata_of_operators(begin, operators);
    assert(operators.map_values(range).drop_last() =~= before.map_values(range));
    assert(all == earlier + last);
    if operators.last() == operator {
        let i = choose|i: int| 0 <= i < last.len() && last[i] == path;
        assert(all[earlier.len() + i] == path);
    } else {
        let k = choose|k: int| 0 <= k < operators.len() && operators[k] == operator;
        assert(before[k] == operator);
        lemma_metadata_of_operator(begin, before, operator, path);
        let i = choose|i: int| 0 <= i < earlier.len() && earlier[i] == path;
        assert(all[i] == path);
    }
}

/// The compaction of a job deletes metadata of the job or of one of its operators, at an epoch
/// that goes, and nothing else.
pub proof fn nothing_but_old_metadata_goes(begin: JobState, events: Seq<JobEvent>, path: Seq<char>)
    requires
        is_begin(begin),
        all_accepted(begin, events),
        deletions(run(begin, events).1).contains(path),
    ensures
        exists|epoch: u32|
            begin.old_min_epoch <= epoch < begin.min_epoch && {
                let base = #[trigger] paths::spec_base_path(begin.metadata.job_id, epoch);
                ||| path == base + "/metadata"@
                ||| exists|i: int|
                    0 <= i < begin.metadata.operator_ids.len() && path == base + "/operator-"@
                        + #[trigger] begin.metadata.operator_ids[i] + "/metadata"@
            },
{
    let job_id = begin.metadata.job_id;
    only_old_metadata_goes(begin, events, path);
    let epoch = choose|epoch: u32|
        begin.old_min_epoch <= epoch < begin.min_epoch && #[trigger] is_metadata_at(
            begin.metadata,
            epoch,
            path,
        );
    let base = paths::spec_base_path(job_id, epoch);
    paths::metadata_lies_in_its_directory(job_id, epoch, job_id);
    if path != paths::checkpoint_metadata(job_id, epoch) {
        let operator = choose|operator: Seq<char>|
            begin.metadata.operator_ids.contains(operator) && path
                == #[trigger] paths::operator_metadata(job_id, epoch, operator);
        let ids = begin.metadata.operator_ids;
        let i = choose|i: int| 0 <= i < ids.len() && ids[i] == operator;
        paths::metadata_lies_in_its_directory(job_id, epoch, operator);
        assert(path == base + "/operator-"@ + ids[i] + "/metadata"@);
    }
}

/// As long as an operator is awaited, no metadata of the job itself is deleted.
pub proof fn the_job_comes_after_its_operators(
    begin: JobState,
    events: Seq<JobEvent>,
    epoch: u32,
)
    requires
        is_begin(begin),
        all_accepted(begin, events),
        run(begin, events).0.outstanding.len() > 0,
    ensures
        !deletions(run(begin, events).1).contains(
            paths::spec_base_path(begin.metadata.job_id, epoch) + "/metadata"@,
        ),
{
    let job_id = begin.metadata.job_id;
    let path = paths::spec_base_path(job_id, epoch) + "/metadata"@;
    let (state, actions) = run(begin, events);
    let operators = compacted_operators(events);
    let gone = deletions(actions);
    lemma_run(begin, events);
    lemma_prefix(begin, operators, state, actions);
    if gone.contains(path) {
        let i = choose|i: int| 0 <= i < gone.len() && gone[i] == path;
        let all = all_old_metadata(begin, operators);
        assert(all[i] == path);
        let of_operators = metadata_of_operators(begin, operators);
        assert(of_operators[i] == path);
        lemma_path_of_operator(begin, operators, path);
        let (e, operator) = choose|e: u32, operator: Seq<char>|
            path == #[trigger] paths::operator_metadata(job_id, e, operator);
        paths::operator_metadata_is_no_checkpoint_metadata(job_id, epoch, e, operator);
    }
}

proof fn lemma_path_of_operator(begin: JobState, operators: Seq<Seq<char>>, path: Seq<char>)
    requires
        metadata_of_operators(begin, operators).contains(path),
    ensures
        exists|e: u32, operator: Seq<char>|
            path == #[trigger] paths::operator_metadata(begin.metadata.job_id, e, operator),
    decreases operators.len(),
{
    let range = |operator: Seq<char>|
        compaction::operator_metadata_range(
            begin.metadata.job_id,
            operator,
            begin.old_min_epoch,
            begin.min_epoch,
        );
    if operators.len() > 0 {
        let before = operators.drop_last();
        let last = range(operators.last());
        let earlier = metadata_of_operators(begin, before);
        let all = metadata_of_operators(begin, operators);
        assert(operators.map_values(range).drop_last() =~= before.map_values(range));
        assert(all == earlier + last);
        let i = choose|i: int| 0 <= i < all.len() && all[i] == path;
        if i < earlier.len() {
            assert(earlier[i] == path);
            lemma_path_of_operator(begin, before, path);
        } else {
            let e = (begin.old_min_epoch + (i - earlier.len())) as u32;
            assert(last[i - earlier.len()] == path);
            assert(path == paths::operator_metadata(
                begin.metadata.job_id,
                e,
                operators.last(),
            ));
        }
    }
}

/// The compaction of a job takes answers to what it asked for, and nothing else; and it gives up
/// exactly where an operator or a deletion failed.
pub proof fn job_compactions_take_answers_alone(state: JobState, event: JobEvent)
    ensures
        match event {
            JobEvent::OperatorCompacted(operator) => is_accepted(state, event) <==> state.phase
                is Awaiting && state.outstanding.count(operator@) > 0,
            JobEvent::OperatorFailed => is_accepted(state, event) <==> state.phase is Awaiting,
            JobEvent::Deleted => is_accepted(state, event) <==> state.phase is DeletingOperator
                || state.phase is DeletingJob,
            JobEvent::DeleteFailed => is_accepted(state, event) <==> state.phase
                is DeletingOperator || state.phase is DeletingJob,
        },
        is_accepted(state, event) ==> (transition(state, event).1 is Fail <==> event
            is OperatorFailed || event is DeleteFailed),
{
}

/// What the compaction of a job asks for is seen as it is.
pub proof fn actions_are_seen_as_they_are(action: JobAction)
    ensures
        match action {
            JobAction::AwaitOperator => action@ is AwaitOperator,
            JobAction::Delete { path } => action@ == (Action::Delete { path: path@ }),
            JobAction::Complete(metadata) => action@ == Action::Complete(metadata@),
            JobAction::Fail => action@ is Fail,
        },
{
}

/// An operator is awaited exactly as long as there is one, and a compaction that has ended well
/// awaits none.
pub proof fn operators_are_awaited_while_there_are_any(begin: JobState, events: Seq<JobEvent>)
    requires
        is_begin(begin),
        all_accepted(begin, events),
    ensures
        run(begin, events).1.last() is AwaitOperator ==> run(begin, events).0.phase is Awaiting
            && run(begin, events).0.outstanding.len() > 0,
        run(begin, events).1.last() is Complete ==> run(begin, events).0.phase is Ended && run(
            begin,
            events,
        ).0.outstanding.len() == 0,
        run(begin, events).0.phase is Awaiting ==> run(begin, events).1.last() is AwaitOperator,
        run(begin, events).0.phase is DeletingOperator || run(begin, events).0.phase is DeletingJob
            ==> run(begin, events).1.last() is Delete,
{
    lemma_run(begin, events);
}

} // verus!
