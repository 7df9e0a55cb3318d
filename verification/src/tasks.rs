//! The task repository: per-user CRUD over the in-memory task store.
//!
//! Tasks are held in file order, together with the running counter that
//! assigns the next identifier; the counter is seeded once when a store
//! is loaded, so identifiers stay distinct across creations and bulk
//! imports. Every operation is scoped to a user id and touches only
//! tasks carrying that tag.

use vstd::prelude::*;
use crate::dates::is_calendar_date;
use crate::dates::valid_date;
use crate::lines::views_of;
use crate::record::ImportRow;
use crate::record::ImportRowV;
use crate::record::Task;
use crate::record::TaskV;
use crate::record::decode_import;
use crate::record::decode_import_spec;
use crate::record::decode_task;
use crate::record::decode_task_spec;
use crate::record::encode_task;
use crate::record::encode_task_spec;
use crate::record::in_progress_string;
use crate::record::completed_string;
use crate::record::lemma_status_words;
use crate::record::lemma_task_round_trip;
use crate::record::status_completed;
use crate::record::status_in_progress;
use crate::record::wf_task;
use crate::lines::comma_free;

verus! {

/// Which task field an update rewrites.
#[derive(Clone, Copy, PartialEq, Eq, Structural, Debug)]
pub enum TaskField {
    Date,
    Content,
}

/// Why a create was refused.
#[derive(Clone, Copy, PartialEq, Eq, Structural, Debug)]
pub enum CreateError {
    InvalidDate,
}

/// Why an update or a completion was refused.
#[derive(Clone, Copy, PartialEq, Eq, Structural, Debug)]
pub enum UpdateError {
    TaskNotFound,
    InvalidDate,
}

/// Why a delete was refused.
#[derive(Clone, Copy, PartialEq, Eq, Structural, Debug)]
pub enum DeleteError {
    TaskNotFound,
}

/// The tasks decoded from a run of store lines, malformed lines skipped.
pub open spec fn decoded_tasks(ls: Seq<Seq<char>>) -> Seq<TaskV>
    decreases ls.len(),
{
    if ls.len() == 0 {
        Seq::<TaskV>::empty()
    } else {
        let init = decoded_tasks(ls.drop_last());
        match decode_task_spec(ls.last()) {
            Some(t) => init.push(t),
            None => init,
        }
    }
}

/// The import rows decoded from a run of source lines, malformed lines
/// skipped.
pub open spec fn decoded_imports(ls: Seq<Seq<char>>) -> Seq<ImportRowV>
    decreases ls.len(),
{
    if ls.len() == 0 {
        Seq::<ImportRowV>::empty()
    } else {
        let init = decoded_imports(ls.drop_last());
        match decode_import_spec(ls.last()) {
            Some(r) => init.push(r),
            None => init,
        }
    }
}

/// The largest id among the tasks, or zero when there are none.
pub open spec fn max_task_id(ts: Seq<TaskV>) -> int
    decreases ts.len(),
{
    if ts.len() == 0 {
        0
    } else {
        let m = max_task_id(ts.drop_last());
        if ts.last().id as int > m {
            ts.last().id as int
        } else {
            m
        }
    }
}

/// The tasks carrying this user's tag, in file order.
pub open spec fn tasks_of_user(ts: Seq<TaskV>, user_id: u32) -> Seq<TaskV>
    decreases ts.len(),
{
    if ts.len() == 0 {
        Seq::<TaskV>::empty()
    } else {
        let init = tasks_of_user(ts.drop_last(), user_id);
        if ts.last().user_id == user_id {
            init.push(ts.last())
        } else {
            init
        }
    }
}

/// The user's tasks that are still in progress, in file order.
pub open spec fn in_progress_of_user(ts: Seq<TaskV>, user_id: u32) -> Seq<TaskV>
    decreases ts.len(),
{
    if ts.len() == 0 {
        Seq::<TaskV>::empty()
    } else {
        let init = in_progress_of_user(ts.drop_last(), user_id);
        if ts.last().user_id == user_id && ts.last().status == status_in_progress() {
            init.push(ts.last())
        } else {
            init
        }
    }
}

/// The task carries this id and this user's tag.
pub open spec fn owned_match(t: TaskV, user_id: u32, task_id: u32) -> bool {
    t.id == task_id && t.user_id == user_id
}

/// Some task carries this id and this user's tag.
pub open spec fn has_owned(ts: Seq<TaskV>, user_id: u32, task_id: u32) -> bool {
    exists|i: int| 0 <= i < ts.len() && owned_match(#[trigger] ts[i], user_id, task_id)
}

/// Index `i` holds the first task with this id and this user's tag.
pub open spec fn first_owned(ts: Seq<TaskV>, user_id: u32, task_id: u32, i: int) -> bool {
    &&& 0 <= i < ts.len()
    &&& owned_match(ts[i], user_id, task_id)
    &&& forall|j: int| 0 <= j < i ==> !owned_match(#[trigger] ts[j], user_id, task_id)
}

/// The task carries this id and tag and is still in progress.
pub open spec fn completable_match(t: TaskV, user_id: u32, task_id: u32) -> bool {
    owned_match(t, user_id, task_id) && t.status == status_in_progress()
}

/// Some task with this id and tag is still in progress.
pub open spec fn has_completable(ts: Seq<TaskV>, user_id: u32, task_id: u32) -> bool {
    exists|i: int| 0 <= i < ts.len() && completable_match(#[trigger] ts[i], user_id, task_id)
}

/// Index `i` holds the first in-progress task with this id and tag.
pub open spec fn first_completable(ts: Seq<TaskV>, user_id: u32, task_id: u32, i: int) -> bool {
    &&& 0 <= i < ts.len()
    &&& completable_match(ts[i], user_id, task_id)
    &&& forall|j: int| 0 <= j < i ==> !completable_match(#[trigger] ts[j], user_id, task_id)
}

/// The tasks left after removing every one with this id and tag.
pub open spec fn remove_owned(ts: Seq<TaskV>, user_id: u32, task_id: u32) -> Seq<TaskV>
    decreases ts.len(),
{
    if ts.len() == 0 {
        Seq::<TaskV>::empty()
    } else {
        let init = remove_owned(ts.drop_last(), user_id, task_id);
        if owned_match(ts.last(), user_id, task_id) {
            init
        } else {
            init.push(ts.last())
        }
    }
}

/// The task with one field rewritten.
pub open spec fn with_field(t: TaskV, field: TaskField, value: Seq<char>) -> TaskV {
    match field {
        TaskField::Date => TaskV { date: value, ..t },
        TaskField::Content => TaskV { content: value, ..t },
    }
}

/// The task with its status set to completed.
pub open spec fn completed_task(t: TaskV) -> TaskV {
    TaskV { status: status_completed(), ..t }
}

/// The tasks a bulk import makes of its rows: each row in order, tagged
/// with the user and given the next id in the running sequence.
pub open spec fn import_tasks(rows: Seq<ImportRowV>, user_id: u32, base: int) -> Seq<TaskV> {
    Seq::new(
        rows.len(),
        |k: int| TaskV {
            id: (base + k) as u32,
            date: rows[k].date,
            content: rows[k].content,
            user_id: user_id,
            status: rows[k].status,
        },
    )
}

/// Status moves one way: a task that was completed is never found in
/// progress again under the same id.
pub open spec fn status_one_way(before: Seq<TaskV>, after: Seq<TaskV>) -> bool {
    forall|i: int, j: int|
        0 <= i < before.len() && 0 <= j < after.len() && (#[trigger] before[i]).id == (
        #[trigger] after[j]).id && before[i].status == status_completed() ==> after[j].status
            == status_completed()
}

/// The in-memory task store: all tasks in file order, and the counter
/// that assigns the next id.
pub struct TaskStore {
    pub tasks: Vec<Task>,
    pub next_id: u32,
}

impl View for TaskStore {
    type V = Seq<TaskV>;

    open spec fn view(&self) -> Seq<TaskV> {
        self.tasks@.map_values(|t: Task| t@)
    }
}

impl TaskStore {
    /// Well-formed: every id is below the counter, and ids are pairwise
    /// distinct.
    pub open spec fn wf(self) -> bool {
        &&& forall|i: int| 0 <= i < self@.len() ==> (#[trigger] self@[i]).id < self.next_id
        &&& forall|i: int, j: int| 0 <= i < j < self@.len() ==> self@[i].id != self@[j].id
    }

    /// An empty store; the first task will get id 1.
    pub fn new() -> (s: TaskStore)
        ensures
            s@ =~= Seq::<TaskV>::empty(),
            s.next_id == 1,
            s.wf(),
    {
        TaskStore { tasks: Vec::new(), next_id: 1 }
    }

    /// Load a store from its lines: decode each line, skip the malformed
    /// ones, and seed the counter one past the largest id seen.
    pub fn from_lines(lines: &Vec<String>) -> (s: TaskStore)
        ensures
            s@ == decoded_tasks(views_of(lines@)),
            s.next_id as int == if max_task_id(s@) < u32::MAX {
                max_task_id(s@) + 1
            } else {
                u32::MAX as int
            },
            max_task_id(s@) < u32::MAX ==> forall|i: int|
                0 <= i < s@.len() ==> (#[trigger] s@[i]).id < s.next_id,
    {
        let mut tasks: Vec<Task> = Vec::new();
        let mut max_id: u32 = 0;
        let mut i: usize = 0;
        while i < lines.len()
            invariant
                0 <= i <= lines@.len(),
                tasks@.map_values(|t: Task| t@) =~= decoded_tasks(
                    views_of(lines@).subrange(0, i as int),
                ),
                max_id as int == max_task_id(tasks@.map_values(|t: Task| t@)),
            decreases lines@.len() - i,
        {
            let ghost prefix = views_of(lines@).subrange(0, i as int);
            let ghost next_prefix = views_of(lines@).subrange(0, i + 1);
            proof {
                assert(next_prefix.drop_last() =~= prefix);
                assert(next_prefix.last() == lines@[i as int]@);
            }
            match decode_task(lines[i].as_str()) {
                Some(t) => {
                    let ghost before = tasks@.map_values(|x: Task| x@);
                    if t.id > max_id {
                        max_id = t.id;
                    }
                    let ghost tv = t@;
                    tasks.push(t);
                    proof {
                        let after = tasks@.map_values(|x: Task| x@);
                        assert(after =~= before.push(tv));
                        assert(after.drop_last() =~= before);
                    }
                },
                None => {},
            }
            i += 1;
        }
        proof {
            assert(views_of(lines@).subrange(0, lines@.len() as int) =~= views_of(lines@));
            lemma_max_task_id_ge(tasks@.map_values(|t: Task| t@));
        }
        let next_id = if max_id == u32::MAX {
            u32::MAX
        } else {
            max_id + 1
        };
        TaskStore { tasks, next_id }
    }

    /// Encode every task back into its store line, in order.
    pub fn to_lines(&self) -> (r: Vec<String>)
        ensures
            views_of(r@) =~= self@.map_values(|t: TaskV| encode_task_spec(t)),
    {
        let mut lines: Vec<String> = Vec::new();
        let mut i: usize = 0;
        while i < self.tasks.len()
            invariant
                0 <= i <= self.tasks@.len(),
                views_of(lines@) =~= self@.subrange(0, i as int).map_values(
                    |t: TaskV| encode_task_spec(t),
                ),
            decreases self.tasks@.len() - i,
        {
            let line = encode_task(&self.tasks[i]);
            let ghost before_lines = lines@;
            lines.push(line);
            proof {
                assert(views_of(lines@) =~= views_of(before_lines).push(line@));
                assert(self@.subrange(0, i + 1) =~= self@.subrange(0, i as int).push(
                    self@[i as int],
                ));
                assert(self@.subrange(0, i + 1).map_values(|t: TaskV| encode_task_spec(t))
                    =~= self@.subrange(0, i as int).map_values(|t: TaskV| encode_task_spec(t)).push(
                    encode_task_spec(self@[i as int]),
                ));
            }
            i += 1;
        }
        proof {
            assert(self@.subrange(0, self@.len() as int) =~= self@);
        }
        lines
    }

    /// List every task of this user, in file order. No task of another
    /// user is ever returned.
    pub fn list_all(&self, user_id: u32) -> (r: Vec<Task>)
        ensures
            r@.map_values(|t: Task| t@) =~= tasks_of_user(self@, user_id),
            forall|k: int| 0 <= k < r@.len() ==> (#[trigger] r@[k])@.user_id == user_id,
    {
        let mut out: Vec<Task> = Vec::new();
        let mut i: usize = 0;
        while i < self.tasks.len()
            invariant
                0 <= i <= self.tasks@.len(),
                out@.map_values(|t: Task| t@) =~= tasks_of_user(
                    self@.subrange(0, i as int),
                    user_id,
                ),
                forall|k: int| 0 <= k < out@.len() ==> (#[trigger] out@[k])@.user_id == user_id,
            decreases self.tasks@.len() - i,
        {
            proof {
                assert(self@.subrange(0, i + 1).drop_last() =~= self@.subrange(0, i as int));
                assert(self@.subrange(0, i + 1).last() == self@[i as int]);
            }
            if self.tasks[i].user_id == user_id {
                let ghost before = out@.map_values(|x: Task| x@);
                let t = self.tasks[i].clone();
                let ghost tv = t@;
                out.push(t);
                proof {
                    assert(out@.map_values(|x: Task| x@) =~= before.push(tv));
                }
            }
            i += 1;
        }
        proof {
            assert(self@.subrange(0, self@.len() as int) =~= self@);
        }
        out
    }

    /// List this user's tasks that are still in progress, in file order.
    pub fn list_in_progress(&self, user_id: u32) -> (r: Vec<Task>)
        ensures
            r@.map_values(|t: Task| t@) =~= in_progress_of_user(self@, user_id),
            forall|k: int|
                0 <= k < r@.len() ==> (#[trigger] r@[k])@.user_id == user_id && r@[k]@.status
                    == status_in_progress(),
    {
        let mut out: Vec<Task> = Vec::new();
        let mut i: usize = 0;
        while i < self.tasks.len()
            invariant
                0 <= i <= self.tasks@.len(),
                out@.map_values(|t: Task| t@) =~= in_progress_of_user(
                    self@.subrange(0, i as int),
                    user_id,
                ),
                forall|k: int|
                    0 <= k < out@.len() ==> (#[trigger] out@[k])@.user_id == user_id && out@[k]@.status
                        == status_in_progress(),
            decreases self.tasks@.len() - i,
        {
            proof {
                assert(self@.subrange(0, i + 1).drop_last() =~= self@.subrange(0, i as int));
                assert(self@.subrange(0, i + 1).last() == self@[i as int]);
            }
            let keep = if self.tasks[i].user_id == user_id {
                let marker = in_progress_string();
                self.tasks[i].status.eq(&marker)
            } else {
                false
            };
            if keep {
                let ghost before = out@.map_values(|x: Task| x@);
                let t = self.tasks[i].clone();
                let ghost tv = t@;
                out.push(t);
                proof {
                    assert(out@.map_values(|x: Task| x@) =~= before.push(tv));
                }
            }
            i += 1;
        }
        proof {
            assert(self@.subrange(0, self@.len() as int) =~= self@);
        }
        out
    }

    /// Create a task for this user: the date must name a real calendar
    /// date; the task gets the next id and the in-progress status, and is
    /// appended to the store.
    pub fn create(&mut self, user_id: u32, date: &str, content: &str) -> (r: Result<
        Task,
        CreateError,
    >)
        requires
            old(self).next_id < u32::MAX,
        ensures
            r is Ok <==> is_calendar_date(date@),
            r == Err::<Task, CreateError>(CreateError::InvalidDate) <==> !is_calendar_date(date@),
            r is Err ==> *final(self) == *old(self),
            r matches Ok(t) ==> {
                &&& t@ == (TaskV {
                    id: old(self).next_id,
                    date: date@,
                    content: content@,
                    user_id: user_id,
                    status: status_in_progress(),
                })
                &&& final(self)@ =~= old(self)@.push(t@)
                &&& final(self).next_id == old(self).next_id + 1
            },
            old(self).wf() ==> final(self).wf(),
            old(self).wf() ==> status_one_way(old(self)@, final(self)@),
    {
        if !valid_date(date) {
            return Err(CreateError::InvalidDate);
        }
        let task = Task {
            id: self.next_id,
            date: date.to_owned(),
            content: content.to_owned(),
            user_id,
            status: in_progress_string(),
        };
        let result = task.clone();
        let ghost before = self@;
        self.tasks.push(task);
        self.next_id = self.next_id + 1;
        proof {
            assert(self@ =~= before.push(result@));
            if old(self).wf() {
                assert forall|i: int, j: int|
                    0 <= i < before.len() && 0 <= j < self@.len() && (#[trigger] before[i]).id == (
                    #[trigger] self@[j]).id && before[i].status == status_completed() implies self@[j].status
                    == status_completed() by {
                    assert(before[i].id < old(self).next_id);
                }
            }
        }
        Ok(result)
    }

    /// Find the first task with this id and this user's tag.
    fn find_owned(&self, user_id: u32, task_id: u32) -> (r: Option<usize>)
        ensures
            match r {
                Some(i) => first_owned(self@, user_id, task_id, i as int),
                None => !has_owned(self@, user_id, task_id),
            },
    {
        let mut i: usize = 0;
        while i < self.tasks.len()
            invariant
                0 <= i <= self.tasks@.len(),
                forall|j: int| 0 <= j < i ==> !owned_match(#[trigger] self@[j], user_id, task_id),
            decreases self.tasks@.len() - i,
        {
            if self.tasks[i].id == task_id && self.tasks[i].user_id == user_id {
                proof {
                    assert(owned_match(self@[i as int], user_id, task_id));
                }
                return Some(i);
            }
            i += 1;
        }
        None
    }

    /// Find the first in-progress task with this id and this user's tag.
    fn find_completable(&self, user_id: u32, task_id: u32) -> (r: Option<usize>)
        ensures
            match r {
                Some(i) => first_completable(self@, user_id, task_id, i as int),
                None => !has_completable(self@, user_id, task_id),
            },
    {
        let marker = in_progress_string();
        let mut i: usize = 0;
        while i < self.tasks.len()
            invariant
                0 <= i <= self.tasks@.len(),
                marker@ == status_in_progress(),
                forall|j: int|
                    0 <= j < i ==> !completable_match(#[trigger] self@[j], user_id, task_id),
            decreases self.tasks@.len() - i,
        {
            if self.tasks[i].id == task_id && self.tasks[i].user_id == user_id && self.tasks[
                i
            ].status.eq(&marker) {
                proof {
                    assert(completable_match(self@[i as int], user_id, task_id));
                }
                return Some(i);
            }
            i += 1;
        }
        None
    }

    /// Update one field of the first task with this id and this user's
    /// tag: the task must exist, and a new date must name a real calendar
    /// date; the rest of the store is untouched.
    pub fn update(&mut self, user_id: u32, task_id: u32, field: TaskField, new_value: &str) -> (r:
        Result<(), UpdateError>)
        ensures
            r == Err::<(), UpdateError>(UpdateError::TaskNotFound) <==> !has_owned(
                old(self)@,
                user_id,
                task_id,
            ),
            r == Err::<(), UpdateError>(UpdateError::InvalidDate) <==> (has_owned(
                old(self)@,
                user_id,
                task_id,
            ) && field == TaskField::Date && !is_calendar_date(new_value@)),
            r is Ok <==> (has_owned(old(self)@, user_id, task_id) && (field == TaskField::Content
                || is_calendar_date(new_value@))),
            r is Err ==> *final(self) == *old(self),
            r is Ok ==> exists|i: int|
                #[trigger] first_owned(old(self)@, user_id, task_id, i) && final(self)@ =~= old(
                    self,
                )@.update(i, with_field(old(self)@[i], field, new_value@)),
            final(self).next_id == old(self).next_id,
            old(self).wf() ==> final(self).wf(),
            old(self).wf() ==> status_one_way(old(self)@, final(self)@),
    {
        let i = match self.find_owned(user_id, task_id) {
            Some(i) => i,
            None => {
                return Err(UpdateError::TaskNotFound);
            },
        };
        let ghost before = self@;
        match field {
            TaskField::Date => {
                if !valid_date(new_value) {
                    return Err(UpdateError::InvalidDate);
                }
                self.tasks[i].date = new_value.to_owned();
            },
            TaskField::Content => {
                self.tasks[i].content = new_value.to_owned();
            },
        }
        proof {
            assert(self@ =~= before.update(i as int, with_field(before[i as int], field, new_value@)));
            assert(first_owned(before, user_id, task_id, i as int));
            if old(self).wf() {
                assert(forall|k: int|
                    0 <= k < self@.len() ==> (#[trigger] self@[k]).id == before[k].id
                        && self@[k].status == before[k].status);
            }
        }
        Ok(())
    }

    /// Move the first in-progress task with this id and this user's tag
    /// to the completed status. A task that is already completed, or
    /// another user's, is not found.
    pub fn mark_completed(&mut self, user_id: u32, task_id: u32) -> (r: Result<(), UpdateError>)
        ensures
            r == Err::<(), UpdateError>(UpdateError::TaskNotFound) <==> !has_completable(
                old(self)@,
                user_id,
                task_id,
            ),
            r is Ok <==> has_completable(old(self)@, user_id, task_id),
            r is Err ==> *final(self) == *old(self),
            r is Ok ==> exists|i: int|
                #[trigger] first_completable(old(self)@, user_id, task_id, i) && final(self)@
                    =~= old(self)@.update(i, completed_task(old(self)@[i])),
            final(self).next_id == old(self).next_id,
            old(self).wf() ==> final(self).wf(),
            old(self).wf() ==> status_one_way(old(self)@, final(self)@),
    {
        let i = match self.find_completable(user_id, task_id) {
            Some(i) => i,
            None => {
                return Err(UpdateError::TaskNotFound);
            },
        };
        let ghost before = self@;
        self.tasks[i].status = completed_string();
        proof {
            assert(self@ =~= before.update(i as int, completed_task(before[i as int])));
            assert(first_completable(before, user_id, task_id, i as int));
            if old(self).wf() {
                assert(forall|k: int|
                    0 <= k < self@.len() ==> (#[trigger] self@[k]).id == before[k].id);
                assert forall|a: int, b: int|
                    0 <= a < before.len() && 0 <= b < self@.len() && (#[trigger] before[a]).id == (
                    #[trigger] self@[b]).id && before[a].status == status_completed() implies self@[
                    b
                ].status == status_completed() by {
                    if b != i as int {
                        assert(self@[b] == before[b]);
                    }
                }
            }
        }
        Ok(())
    }

    /// Delete the first-found task with this id and this user's tag. The
    /// task must exist; without confirmation the store is left exactly as
    /// it was, with confirmation every task carrying that id and tag is
    /// removed.
    pub fn delete(&mut self, user_id: u32, task_id: u32, confirmed: bool) -> (r: Result<
        (),
        DeleteError,
    >)
        ensures
            r == Err::<(), DeleteError>(DeleteError::TaskNotFound) <==> !has_owned(
                old(self)@,
                user_id,
                task_id,
            ),
            r is Ok <==> has_owned(old(self)@, user_id, task_id),
            r is Err ==> *final(self) == *old(self),
            r is Ok && !confirmed ==> *final(self) == *old(self),
            r is Ok && confirmed ==> final(self)@ =~= remove_owned(old(self)@, user_id, task_id)
                && final(self).next_id == old(self).next_id,
            old(self).wf() ==> final(self).wf(),
            old(self).wf() ==> status_one_way(old(self)@, final(self)@),
    {
        match self.find_owned(user_id, task_id) {
            Some(_) => {},
            None => {
                return Err(DeleteError::TaskNotFound);
            },
        }
        if !confirmed {
            return Ok(());
        }
        let ghost before = self@;
        let mut kept: Vec<Task> = Vec::new();
        let mut i: usize = 0;
        while i < self.tasks.len()
            invariant
                0 <= i <= self.tasks@.len(),
                self@ == before,
                kept@.map_values(|t: Task| t@) =~= remove_owned(
                    before.subrange(0, i as int),
                    user_id,
                    task_id,
                ),
            decreases self.tasks@.len() - i,
        {
            proof {
                assert(before.subrange(0, i + 1).drop_last() =~= before.subrange(0, i as int));
                assert(before.subrange(0, i + 1).last() == before[i as int]);
            }
            if !(self.tasks[i].id == task_id && self.tasks[i].user_id == user_id) {
                let ghost kv = kept@.map_values(|x: Task| x@);
                let t = self.tasks[i].clone();
                let ghost tv = t@;
                kept.push(t);
                proof {
                    assert(kept@.map_values(|x: Task| x@) =~= kv.push(tv));
                }
            }
            i += 1;
        }
        proof {
            assert(before.subrange(0, before.len() as int) =~= before);
        }
        self.tasks = kept;
        proof {
            if old(self).wf() {
                lemma_remove_owned_members(before, user_id, task_id);
                let after = remove_owned(before, user_id, task_id);
                lemma_remove_owned_distinct(before, user_id, task_id);
                assert forall|k: int| 0 <= k < after.len() implies (#[trigger] after[k]).id < old(
                    self,
                ).next_id by {
                    let m = choose|m: int| 0 <= m < before.len() && after[k] == before[m];
                    assert(before[m].id < old(self).next_id);
                }
                assert forall|a: int, b: int|
                    0 <= a < before.len() && 0 <= b < after.len() && (#[trigger] before[a]).id == (
                    #[trigger] after[b]).id && before[a].status == status_completed() implies after[
                    b
                ].status == status_completed() by {
                    let m = choose|m: int| 0 <= m < before.len() && after[b] == before[m];
                    assert(before[m].id == before[a].id);
                    if m != a {
                        assert(before[m].id != before[a].id);
                    }
                }
            }
        }
        Ok(())
    }

    /// Import a batch of rows for this user: each row becomes a task with
    /// the row's date, content and status, and the ids come from the
    /// running counter, seeded once for the whole batch, so no two
    /// imported tasks share an id.
    pub fn bulk_import(&mut self, user_id: u32, rows: &Vec<ImportRow>) -> (imported: Vec<Task>)
        requires
            old(self).next_id as int + rows@.len() <= u32::MAX as int,
        ensures
            imported@.map_values(|t: Task| t@) =~= import_tasks(
                rows@.map_values(|r: ImportRow| r@),
                user_id,
                old(self).next_id as int,
            ),
            final(self)@ =~= old(self)@ + imported@.map_values(|t: Task| t@),
            final(self).next_id as int == old(self).next_id as int + rows@.len(),
            old(self).wf() ==> final(self).wf(),
            old(self).wf() ==> status_one_way(old(self)@, final(self)@),
    {
        let ghost rv = rows@.map_values(|r: ImportRow| r@);
        let ghost base = self.next_id as int;
        let ghost before = self@;
        let ghost batch = import_tasks(rv, user_id, base);
        let mut imported: Vec<Task> = Vec::new();
        let mut k: usize = 0;
        while k < rows.len()
            invariant
                0 <= k <= rows@.len(),
                rv == rows@.map_values(|r: ImportRow| r@),
                batch == import_tasks(rv, user_id, base),
                base + rows@.len() <= u32::MAX as int,
                self.next_id as int == base + k,
                imported@.map_values(|t: Task| t@) =~= batch.subrange(0, k as int),
                self@ =~= before + imported@.map_values(|t: Task| t@),
            decreases rows@.len() - k,
        {
            let row = &rows[k];
            let task = Task {
                id: self.next_id,
                date: row.date.clone(),
                content: row.content.clone(),
                user_id,
                status: row.status.clone(),
            };
            let out = task.clone();
            let ghost iv = imported@.map_values(|x: Task| x@);
            let ghost sv = self@;
            let ghost tv = task@;
            imported.push(out);
            self.tasks.push(task);
            self.next_id = self.next_id + 1;
            proof {
                assert(tv == batch[k as int]);
                assert(imported@.map_values(|x: Task| x@) =~= iv.push(tv));
                assert(batch.subrange(0, k + 1) =~= batch.subrange(0, k as int).push(
                    batch[k as int],
                ));
                assert(self@ =~= sv.push(tv));
            }
            k += 1;
        }
        proof {
            assert(batch.subrange(0, rows@.len() as int) =~= batch);
            if old(self).wf() {
                assert forall|a: int, b: int|
                    0 <= a < before.len() && 0 <= b < self@.len() && (#[trigger] before[a]).id == (
                    #[trigger] self@[b]).id && before[a].status == status_completed() implies self@[
                    b
                ].status == status_completed() by {
                    if b >= before.len() {
                        assert(self@[b] == batch[b - before.len()]);
                        assert(self@[b].id as int == base + (b - before.len()));
                        assert(before[a].id < base);
                    } else {
                        assert(self@[b] == before[b]);
                    }
                }
            }
        }
        imported
    }
}

/// No task's id exceeds the store's largest id.
pub proof fn lemma_max_task_id_ge(ts: Seq<TaskV>)
    ensures
        forall|i: int| 0 <= i < ts.len() ==> (#[trigger] ts[i]).id as int <= max_task_id(ts),
    decreases ts.len(),
{
    if ts.len() > 0 {
        lemma_max_task_id_ge(ts.drop_last());
        assert forall|i: int| 0 <= i < ts.len() implies (#[trigger] ts[i]).id as int
            <= max_task_id(ts) by {
            if i < ts.len() - 1 {
                assert(ts.drop_last()[i] == ts[i]);
            }
        }
    }
}

/// Reload round trip: a store written out line by line and decoded again
/// is the same store, for tasks whose date and content are comma-free
/// and whose status is one of the two status words.
pub proof fn lemma_task_lines_reload(ts: Seq<TaskV>)
    requires
        forall|i: int|
            0 <= i < ts.len() ==> comma_free((#[trigger] ts[i]).date) && comma_free(ts[i].content)
                && (ts[i].status == status_in_progress() || ts[i].status == status_completed()),
    ensures
        decoded_tasks(ts.map_values(|t: TaskV| encode_task_spec(t))) == ts,
    decreases ts.len(),
{
    let lines = ts.map_values(|t: TaskV| encode_task_spec(t));
    if ts.len() == 0 {
        assert(lines =~= Seq::<Seq<char>>::empty());
    } else {
        let init = ts.drop_last();
        lemma_task_lines_reload(init);
        lemma_status_words();
        assert(wf_task(ts.last()));
        lemma_task_round_trip(ts.last());
        assert(lines.drop_last() =~= init.map_values(|t: TaskV| encode_task_spec(t)));
        assert(lines.last() == encode_task_spec(ts.last()));
        assert(decoded_tasks(lines) =~= init.push(ts.last()));
        assert(decoded_tasks(lines) =~= ts);
    }
}

/// Every task left by a removal was already in the store.
proof fn lemma_remove_owned_members(ts: Seq<TaskV>, user_id: u32, task_id: u32)
    ensures
        forall|k: int|
            0 <= k < remove_owned(ts, user_id, task_id).len() ==> exists|m: int|
                0 <= m < ts.len() && #[trigger] remove_owned(ts, user_id, task_id)[k] == ts[m],
    decreases ts.len(),
{
    if ts.len() > 0 {
        let init = ts.drop_last();
        lemma_remove_owned_members(init, user_id, task_id);
        let r0 = remove_owned(init, user_id, task_id);
        let r = remove_owned(ts, user_id, task_id);
        assert forall|k: int| 0 <= k < r.len() implies exists|m: int|
            0 <= m < ts.len() && #[trigger] r[k] == ts[m] by {
            if k < r0.len() {
                let m = choose|m: int| 0 <= m < init.len() && r0[k] == init[m];
                assert(r[k] == ts[m]);
            } else {
                assert(r[k] == ts[ts.len() - 1]);
            }
        }
    }
}

/// Removal keeps ids pairwise distinct.
proof fn lemma_remove_owned_distinct(ts: Seq<TaskV>, user_id: u32, task_id: u32)
    requires
        forall|i: int, j: int| 0 <= i < j < ts.len() ==> ts[i].id != ts[j].id,
    ensures
        forall|i: int, j: int|
            0 <= i < j < remove_owned(ts, user_id, task_id).len() ==> remove_owned(
                ts,
                user_id,
                task_id,
            )[i].id != remove_owned(ts, user_id, task_id)[j].id,
    decreases ts.len(),
{
    if ts.len() > 0 {
        let init = ts.drop_last();
        lemma_remove_owned_distinct(init, user_id, task_id);
        lemma_remove_owned_members(init, user_id, task_id);
        let r0 = remove_owned(init, user_id, task_id);
        let r = remove_owned(ts, user_id, task_id);
        if !owned_match(ts.last(), user_id, task_id) {
            assert forall|i: int, j: int| 0 <= i < j < r.len() implies r[i].id != r[j].id by {
                if j == r.len() - 1 {
                    let m = choose|m: int| 0 <= m < init.len() && r0[i] == init[m];
                    assert(ts[m].id != ts[ts.len() - 1].id);
                }
            }
        }
    }
}

/// Decode a run of bulk-import source lines, skipping malformed rows.
pub fn decode_import_rows(lines: &Vec<String>) -> (rows: Vec<ImportRow>)
    ensures
        rows@.map_values(|r: ImportRow| r@) == decoded_imports(views_of(lines@)),
{
    let mut rows: Vec<ImportRow> = Vec::new();
    let mut i: usize = 0;
    while i < lines.len()
        invariant
            0 <= i <= lines@.len(),
            rows@.map_values(|r: ImportRow| r@) =~= decoded_imports(
                views_of(lines@).subrange(0, i as int),
            ),
        decreases lines@.len() - i,
    {
        let ghost prefix = views_of(lines@).subrange(0, i as int);
        let ghost next_prefix = views_of(lines@).subrange(0, i + 1);
        proof {
            assert(next_prefix.drop_last() =~= prefix);
            assert(next_prefix.last() == lines@[i as int]@);
        }
        match decode_import(lines[i].as_str()) {
            Some(row) => {
                let ghost before = rows@.map_values(|x: ImportRow| x@);
                let ghost rv = row@;
                rows.push(row);
                proof {
                    assert(rows@.map_values(|x: ImportRow| x@) =~= before.push(rv));
                }
            },
            None => {},
        }
        i += 1;
    }
    proof {
        assert(views_of(lines@).subrange(0, lines@.len() as int) =~= views_of(lines@));
    }
    rows
}

} // verus!
