//! Where checkpoint data and checkpoint metadata lie in the storage.
use vstd::prelude::*;
use vstd::string::StringExecFns;

use crate::decimal;
use crate::decimal::push_zero_padded;
use crate::types;
use crate::types::TaskInfo;

verus! {

/// The directory of the checkpoint of `job_id` at `epoch`.
pub open spec fn spec_base_path(job_id: Seq<char>, epoch: u32) -> Seq<char> {
    job_id + "/checkpoints/checkpoint-"@ + decimal::zero_padded(epoch as nat, 7)
}

/// The metadata file of the directory `path`.
pub open spec fn spec_metadata_path(path: Seq<char>) -> Seq<char> {
    path + "/metadata"@
}

/// The directory of `operator` in the checkpoint of `job_id` at `epoch`.
pub open spec fn spec_operator_path(job_id: Seq<char>, epoch: u32, operator: Seq<char>) -> Seq<
    char,
> {
    spec_base_path(job_id, epoch) + "/operator-"@ + operator
}

/// The data file of one table of one subtask in the checkpoint at `epoch`.
pub open spec fn spec_table_checkpoint_path(
    task: types::Task,
    table: char,
    epoch: u32,
) -> Seq<char> {
    spec_operator_path(task.job_id, epoch, task.operator_id) + "/table-"@ + seq![table] + "-"@
        + decimal::zero_padded(task.task_index as nat, 3)
}

/// The metadata file of the whole checkpoint of `job_id` at `epoch`.
pub open spec fn checkpoint_metadata(job_id: Seq<char>, epoch: u32) -> Seq<char> {
    spec_metadata_path(spec_base_path(job_id, epoch))
}

/// The metadata file of `operator` in the checkpoint of `job_id` at `epoch`.
pub open spec fn operator_metadata(job_id: Seq<char>, epoch: u32, operator: Seq<char>) -> Seq<
    char,
> {
    spec_metadata_path(spec_operator_path(job_id, epoch, operator))
}

/// The directory of a checkpoint: the epoch has at least seven digits.
pub fn base_path(job_id: &str, epoch: u32) -> (path: String)
    ensures
        path@ == spec_base_path(job_id@, epoch),
{
    let mut path: String = String::new();
    path.append(job_id);
    path.append("/checkpoints/checkpoint-");
    push_zero_padded(&mut path, epoch as u64, 7);
    assert(path@ =~= spec_base_path(job_id@, epoch));
    path
}

/// The metadata file of a directory.
pub fn metadata_path(path: &str) -> (file: String)
    ensures
        file@ == spec_metadata_path(path@),
{
    let mut file: String = String::new();
    file.append(path);
    file.append("/metadata");
    assert(file@ =~= spec_metadata_path(path@));
    file
}

/// The directory of one operator in a checkpoint.
pub fn operator_path(job_id: &str, epoch: u32, operator: &str) -> (path: String)
    ensures
        path@ == spec_operator_path(job_id@, epoch, operator@),
{
    let mut path: String = base_path(job_id, epoch);
    path.append("/operator-");
    path.append(operator);
    path
}

/// The data file that a subtask writes for `table` at `epoch`: the subtask's index has at
/// least three digits.
pub fn table_checkpoint_path(task_info: &TaskInfo, table: char, epoch: u32) -> (path: String)
    ensures
        path@ == spec_table_checkpoint_path(task_info@, table, epoch),
{
    let mut path: String = operator_path(
        task_info.job_id.as_str(),
        epoch,
        task_info.operator_id.as_str(),
    );
    path.append("/table-");
    let ghost before = path@;
    path.push(table);
    assert(path@ =~= before + seq![table]);
    path.append("-");
    push_zero_padded(&mut path, task_info.task_index as u64, 3);
    path
}

/// Whether `s` consists of digits alone.
spec fn all_digits(s: Seq<char>) -> bool {
    forall|i: int| 0 <= i < s.len() ==> decimal::is_digit(#[trigger] s[i])
}

/// Digits behind something that ends in no digit are found again from the end.
proof fn lemma_split_last_digits(a: Seq<char>, d: Seq<char>, b: Seq<char>, e: Seq<char>)
    requires
        a + d == b + e,
        a.len() > 0,
        b.len() > 0,
        !decimal::is_digit(a.last()),
        !decimal::is_digit(b.last()),
        all_digits(d),
        all_digits(e),
    ensures
        a == b,
        d == e,
{
    let s = a + d;
    let t = b + e;
    assert(s.len() == a.len() + d.len() && t.len() == b.len() + e.len());
    assert(s[a.len() - 1] == a.last());
    assert(t[b.len() - 1] == b.last());
    if a.len() < b.len() {
        assert(s[b.len() - 1] == d[b.len() - 1 - a.len()]);
    }
    if b.len() < a.len() {
        assert(t[a.len() - 1] == e[a.len() - 1 - b.len()]);
    }
    assert(a =~= s.take(a.len() as int));
    assert(b =~= t.take(b.len() as int));
    assert(d =~= s.skip(a.len() as int));
    assert(e =~= t.skip(b.len() as int));
}

/// Digits before something that begins with no digit are found again from the start.
proof fn lemma_split_first_digits(d: Seq<char>, a: Seq<char>, e: Seq<char>, b: Seq<char>)
    requires
        d + a == e + b,
        a.len() > 0,
        b.len() > 0,
        !decimal::is_digit(a[0]),
        !decimal::is_digit(b[0]),
        all_digits(d),
        all_digits(e),
    ensures
        d == e,
        a == b,
{
    let s = d + a;
    let t = e + b;
    assert(s[d.len() as int] == a[0]);
    assert(t[e.len() as int] == b[0]);
    if d.len() < e.len() {
        assert(t[d.len() as int] == e[d.len() as int]);
    }
    if e.len() < d.len() {
        assert(s[e.len() as int] == d[e.len() as int]);
    }
    assert(d =~= s.take(d.len() as int));
    assert(e =~= t.take(e.len() as int));
    assert(a =~= s.skip(d.len() as int));
    assert(b =~= t.skip(e.len() as int));
}

/// The same text in front of both sides of an equation can be left out.
proof fn lemma_strip_prefix(p: Seq<char>, a: Seq<char>, b: Seq<char>)
    requires
        p + a == p + b,
    ensures
        a == b,
{
    assert(a =~= (p + a).skip(p.len() as int));
    assert(b =~= (p + b).skip(p.len() as int));
}

/// Texts of the same length at the end of both sides of an equation are equal, and so is what
/// stands before them.
proof fn lemma_split_suffix(a: Seq<char>, x: Seq<char>, b: Seq<char>, y: Seq<char>)
    requires
        a + x == b + y,
        x.len() == y.len(),
    ensures
        a == b,
        x == y,
{
    assert((a + x).len() == (b + y).len());
    assert(a =~= (a + x).take(a.len() as int));
    assert(b =~= (b + y).take(b.len() as int));
    assert(x =~= (a + x).skip(a.len() as int));
    assert(y =~= (b + y).skip(b.len() as int));
}

/// No two checkpoints have the same directory, whichever jobs they belong to.
pub proof fn checkpoint_directories_differ(job: Seq<char>, epoch: u32, other_job: Seq<char>, other: u32)
    requires
        spec_base_path(job, epoch) == spec_base_path(other_job, other),
    ensures
        job == other_job,
        epoch == other,
{
    reveal_strlit("/checkpoints/checkpoint-");
    let mid = "/checkpoints/checkpoint-"@;
    decimal::lemma_padded_digits(epoch as nat, 7);
    decimal::lemma_padded_digits(other as nat, 7);
    assert(!decimal::is_digit(mid.last()));
    assert((job + mid).last() == mid.last());
    assert((other_job + mid).last() == mid.last());
    lemma_split_last_digits(
        job + mid,
        decimal::zero_padded(epoch as nat, 7),
        other_job + mid,
        decimal::zero_padded(other as nat, 7),
    );
    lemma_split_suffix(job, mid, other_job, mid);
    decimal::padding_is_injective(epoch as nat, other as nat, 7);
}

/// What stands behind the directory of a checkpoint, and begins with no digit, is found again
/// together with the epoch.
proof fn lemma_below_checkpoint(
    job: Seq<char>,
    epoch: u32,
    below: Seq<char>,
    other: u32,
    other_below: Seq<char>,
)
    requires
        spec_base_path(job, epoch) + below == spec_base_path(job, other) + other_below,
        below.len() > 0,
        other_below.len() > 0,
        !decimal::is_digit(below[0]),
        !decimal::is_digit(other_below[0]),
    ensures
        epoch == other,
        below == other_below,
{
    let front = job + "/checkpoints/checkpoint-"@;
    let digits = decimal::zero_padded(epoch as nat, 7);
    let other_digits = decimal::zero_padded(other as nat, 7);
    decimal::lemma_padded_digits(epoch as nat, 7);
    decimal::lemma_padded_digits(other as nat, 7);
    assert(front + digits + below =~= front + (digits + below));
    assert(front + other_digits + other_below =~= front + (other_digits + other_below));
    lemma_strip_prefix(front, digits + below, other_digits + other_below);
    lemma_split_first_digits(digits, below, other_digits, other_below);
    decimal::padding_is_injective(epoch as nat, other as nat, 7);
}

/// Within a job, no two operators and no two epochs have the same directory.
pub proof fn operator_directories_differ(
    job: Seq<char>,
    epoch: u32,
    operator: Seq<char>,
    other: u32,
    other_operator: Seq<char>,
)
    requires
        spec_operator_path(job, epoch, operator) == spec_operator_path(job, other, other_operator),
    ensures
        epoch == other,
        operator == other_operator,
{
    reveal_strlit("/operator-");
    let mid = "/operator-"@;
    assert(spec_base_path(job, epoch) + mid + operator =~= spec_base_path(job, epoch) + (mid
        + operator));
    assert(spec_base_path(job, other) + mid + other_operator =~= spec_base_path(job, other) + (mid
        + other_operator));
    lemma_below_checkpoint(job, epoch, mid + operator, other, mid + other_operator);
    lemma_strip_prefix(mid, operator, other_operator);
}

/// Within a job, two data files that differ in epoch, operator, table or subtask never lie in
/// the same place.
pub proof fn data_files_differ(
    task: types::Task,
    table: char,
    epoch: u32,
    other_task: types::Task,
    other_table: char,
    other: u32,
)
    requires
        task.job_id == other_task.job_id,
        spec_table_checkpoint_path(task, table, epoch) == spec_table_checkpoint_path(
            other_task,
            other_table,
            other,
        ),
    ensures
        epoch == other,
        task.operator_id == other_task.operator_id,
        table == other_table,
        task.task_index == other_task.task_index,
{
    reveal_strlit("/table-");
    reveal_strlit("-");
    let mid = "/table-"@;
    let dash = "-"@;
    let front = spec_operator_path(task.job_id, epoch, task.operator_id);
    let other_front = spec_operator_path(other_task.job_id, other, other_task.operator_id);
    let digits = decimal::zero_padded(task.task_index as nat, 3);
    let other_digits = decimal::zero_padded(other_task.task_index as nat, 3);
    decimal::lemma_padded_digits(task.task_index as nat, 3);
    decimal::lemma_padded_digits(other_task.task_index as nat, 3);
    let a = front + mid + seq![table] + dash;
    let b = other_front + mid + seq![other_table] + dash;
    assert(a.last() == dash.last());
    assert(b.last() == dash.last());
    lemma_split_last_digits(a, digits, b, other_digits);
    decimal::padding_is_injective(task.task_index as nat, other_task.task_index as nat, 3);
    lemma_split_suffix(front + mid + seq![table], dash, other_front + mid + seq![other_table], dash);
    lemma_split_suffix(front + mid, seq![table], other_front + mid, seq![other_table]);
    assert(seq![table][0] == seq![other_table][0]);
    lemma_split_suffix(front, mid, other_front, mid);
    operator_directories_differ(
        task.job_id,
        epoch,
        task.operator_id,
        other,
        other_task.operator_id,
    );
}

/// No two directories have the same metadata file.
pub proof fn metadata_files_differ(path: Seq<char>, other: Seq<char>)
    requires
        spec_metadata_path(path) == spec_metadata_path(other),
    ensures
        path == other,
{
    lemma_split_suffix(path, "/metadata"@, other, "/metadata"@);
}

/// A metadata file is never a data file, whichever directory it is in.
pub proof fn metadata_is_no_data(path: Seq<char>, task: types::Task, table: char, epoch: u32)
    ensures
        spec_metadata_path(path) != spec_table_checkpoint_path(task, table, epoch),
{
    reveal_strlit("/metadata");
    let digits = decimal::zero_padded(task.task_index as nat, 3);
    decimal::lemma_padded_digits(task.task_index as nat, 3);
    assert(spec_table_checkpoint_path(task, table, epoch).last() == digits.last());
    assert(decimal::is_digit(digits[digits.len() - 1]));
    assert(spec_metadata_path(path).last() == "/metadata"@.last());
}

/// Within a job, the metadata of a checkpoint never lies where the metadata of an operator
/// does.
pub proof fn operator_metadata_is_no_checkpoint_metadata(
    job: Seq<char>,
    epoch: u32,
    other: u32,
    operator: Seq<char>,
)
    ensures
        checkpoint_metadata(job, epoch) != operator_metadata(job, other, operator),
{
    reveal_strlit("/metadata");
    reveal_strlit("/operator-");
    let mid = "/operator-"@ + operator + "/metadata"@;
    if checkpoint_metadata(job, epoch) == operator_metadata(job, other, operator) {
        assert(operator_metadata(job, other, operator) =~= spec_base_path(job, other) + mid);
        lemma_below_checkpoint(job, epoch, "/metadata"@, other, mid);
        assert("/metadata"@[1] == mid[1]);
    }
}

/// The directory of a checkpoint is that of its job, the word for checkpoints, and the epoch in
/// seven digits or more.
pub proof fn checkpoint_directories_name_job_and_epoch(job: Seq<char>, epoch: u32)
    ensures
        job.is_prefix_of(spec_base_path(job, epoch)),
        spec_base_path(job, epoch).skip(job.len() as int) == "/checkpoints/checkpoint-"@
            + decimal::zero_padded(epoch as nat, 7),
{
    let path = spec_base_path(job, epoch);
    assert(path.take(job.len() as int) =~= job);
    assert(path.skip(job.len() as int) =~= "/checkpoints/checkpoint-"@ + decimal::zero_padded(
        epoch as nat,
        7,
    ));
}

/// All that a subtask stores at a checkpoint lies below the directory of the checkpoint: first
/// comes the operator, then the table and the index of the subtask in three digits or more.
pub proof fn data_lies_below_its_checkpoint(task: types::Task, table: char, epoch: u32)
    ensures
        ({
            let base = spec_base_path(task.job_id, epoch);
            let directory = spec_operator_path(task.job_id, epoch, task.operator_id);
            let path = spec_table_checkpoint_path(task, table, epoch);
            &&& base.is_prefix_of(directory)
            &&& directory.skip(base.len() as int) == "/operator-"@ + task.operator_id
            &&& directory.is_prefix_of(path)
            &&& path.skip(directory.len() as int) == "/table-"@ + seq![table] + "-"@
                + decimal::zero_padded(task.task_index as nat, 3)
        }),
{
    let base = spec_base_path(task.job_id, epoch);
    let directory = spec_operator_path(task.job_id, epoch, task.operator_id);
    let path = spec_table_checkpoint_path(task, table, epoch);
    assert(directory.take(base.len() as int) =~= base);
    assert(directory.skip(base.len() as int) =~= "/operator-"@ + task.operator_id);
    assert(path.take(directory.len() as int) =~= directory);
    assert(path.skip(directory.len() as int) =~= "/table-"@ + seq![table] + "-"@
        + decimal::zero_padded(task.task_index as nat, 3));
}

/// Metadata lies directly below the directory that it is for: that of the checkpoint, or that of
/// the operator in the checkpoint.
pub proof fn metadata_lies_in_its_directory(job: Seq<char>, epoch: u32, operator: Seq<char>)
    ensures
        checkpoint_metadata(job, epoch) == spec_base_path(job, epoch) + "/metadata"@,
        operator_metadata(job, epoch, operator) == spec_base_path(job, epoch) + "/operator-"@
            + operator + "/metadata"@,
        spec_metadata_path(job) == job + "/metadata"@,
{
}

} // verus!
