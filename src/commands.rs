use vstd::prelude::*;

use crate::storage::Storage;
use crate::task::{tasks_view, Task, TaskStatus, TaskView};

verus! {

/// The largest id in `ts`, or zero when there is none.
pub open spec fn max_id(ts: Seq<TaskView>) -> nat
    decreases ts.len(),
{
    if ts.len() == 0 {
        0
    } else {
        let m = max_id(ts.drop_last());
        if ts.last().id as nat > m {
            ts.last().id as nat
        } else {
            m
        }
    }
}

/// The index of the first task with id `id`, if there is one.
pub open spec fn first_with_id(ts: Seq<TaskView>, id: u32) -> Option<int>
    decreases ts.len(),
{
    if ts.len() == 0 {
        None
    } else if ts[0].id == id {
        Some(0)
    } else {
        match first_with_id(ts.drop_first(), id) {
            Some(k) => Some(k + 1),
            None => None,
        }
    }
}

/// `ts` without the tasks whose id is `id`, the others kept in order.
pub open spec fn without_id(ts: Seq<TaskView>, id: u32) -> Seq<TaskView>
    decreases ts.len(),
{
    if ts.len() == 0 {
        Seq::empty()
    } else if ts.last().id == id {
        without_id(ts.drop_last(), id)
    } else {
        without_id(ts.drop_last(), id).push(ts.last())
    }
}

/// The indices, ascending, of the tasks that `filter` lets through: all of
/// them when it is `None`, else those with that status.
pub open spec fn shown_indices(ts: Seq<TaskView>, filter: Option<TaskStatus>) -> Seq<usize>
    decreases ts.len(),
{
    if ts.len() == 0 {
        Seq::empty()
    } else {
        let p = shown_indices(ts.drop_last(), filter);
        match filter {
            Some(st) if ts.last().status != st => p,
            _ => p.push((ts.len() - 1) as usize),
        }
    }
}

/// The operations on a stored task list.
pub struct Commands {
    storage: Storage,
}

impl Commands {
    pub fn new(storage: Storage) -> (r: Commands)
        ensures
            r.storage() == storage,
    {
        Commands { storage }
    }

    pub closed spec fn storage(&self) -> Storage {
        self.storage
    }

    /// The storage that the task list is kept in.
    pub fn storage_ref(&self) -> (r: &Storage)
        ensures
            *r == self.storage(),
    {
        &self.storage
    }
}

/// The id for a new task: one more than the largest id in use, or `None`
/// when that would not fit in `u32`.
pub fn next_id(tasks: &Vec<Task>) -> (r: Option<u32>)
    ensures
        match r {
            Some(id) => id as nat == max_id(tasks_view(tasks@)) + 1,
            None => max_id(tasks_view(tasks@)) == u32::MAX,
        },
{
    let ghost ts = tasks_view(tasks@);
    let mut m: u32 = 0;
    let mut i: usize = 0;
    while i < tasks.len()
        invariant
            i <= tasks.len(),
            ts == tasks_view(tasks@),
            m as nat == max_id(ts.subrange(0, i as int)),
        decreases tasks.len() - i,
    {
        assert(ts.subrange(0, i + 1).drop_last() =~= ts.subrange(0, i as int));
        if tasks[i].id > m {
            m = tasks[i].id;
        }
        i = i + 1;
    }
    assert(ts.subrange(0, tasks.len() as int) =~= ts);
    if m == u32::MAX {
        None
    } else {
        Some(m + 1)
    }
}

/// Adds a new task, not yet started, under the next id; returns that id.
/// Nothing is added when no id is left.
pub fn add_task(tasks: &mut Vec<Task>, description: String) -> (r: Option<u32>)
    ensures
        match r {
            Some(id) => {
                &&& id as nat == max_id(tasks_view(old(tasks)@)) + 1
                &&& tasks_view(final(tasks)@) == tasks_view(old(tasks)@).push(
                    TaskView { id, description: description@, status: TaskStatus::Todo },
                )
            },
            None => {
                &&& max_id(tasks_view(old(tasks)@)) == u32::MAX
                &&& final(tasks)@ == old(tasks)@
            },
        },
{
    match next_id(tasks) {
        Some(id) => {
            tasks.push(Task::new(id, description));
            assert(tasks_view(tasks@) =~= tasks_view(old(tasks)@).push(
                TaskView { id, description: description@, status: TaskStatus::Todo },
            ));
            Some(id)
        },
        None => None,
    }
}

/// The index of the first task with id `id`.
pub fn find_task(tasks: &Vec<Task>, id: u32) -> (r: Option<usize>)
    ensures
        match r {
            Some(k) => first_with_id(tasks_view(tasks@), id) == Some(k as int),
            None => first_with_id(tasks_view(tasks@), id) is None,
        },
{
    let ghost ts = tasks_view(tasks@);
    let n = tasks.len();
    let mut i: usize = 0;
    assert(ts.subrange(0, n as int) =~= ts);
    while i < n
        invariant
            i <= n == tasks.len(),
            ts == tasks_view(tasks@),
            first_with_id(ts, id) == match first_with_id(ts.subrange(i as int, n as int), id) {
                Some(k) => Some(k + i),
                None => None,
            },
        decreases n - i,
    {
        assert(ts.subrange(i as int, n as int).drop_first() =~= ts.subrange(i + 1, n as int));
        if tasks[i].id == id {
            return Some(i);
        }
        i = i + 1;
    }
    None
}

/// Gives the first task with id `id` a new description; returns its index.
pub fn update_task(tasks: &mut Vec<Task>, id: u32, description: String) -> (r: Option<usize>)
    ensures
        r == match first_with_id(tasks_view(old(tasks)@), id) {
            Some(k) => Some(k as usize),
            None => None,
        },
        match r {
            Some(k) => tasks_view(final(tasks)@) == tasks_view(old(tasks)@).update(
                k as int,
                TaskView { description: description@, ..tasks_view(old(tasks)@)[k as int] },
            ),
            None => final(tasks)@ == old(tasks)@,
        },
{
    match find_task(tasks, id) {
        Some(k) => {
            proof {
                lemma_first_in_range(tasks_view(tasks@), id);
            }
            let old_task = &tasks[k];
            let task = Task::with_status(old_task.id, description, old_task.status);
            tasks.set(k, task);
            assert(tasks_view(tasks@) =~= tasks_view(old(tasks)@).update(
                k as int,
                TaskView { description: description@, ..tasks_view(old(tasks)@)[k as int] },
            ));
            Some(k)
        },
        None => None,
    }
}

/// Gives the first task with id `id` the status `status`; returns its index.
pub fn mark_task(tasks: &mut Vec<Task>, id: u32, status: TaskStatus) -> (r: Option<usize>)
    ensures
        r == match first_with_id(tasks_view(old(tasks)@), id) {
            Some(k) => Some(k as usize),
            None => None,
        },
        match r {
            Some(k) => tasks_view(final(tasks)@) == tasks_view(old(tasks)@).update(
                k as int,
                TaskView { status, ..tasks_view(old(tasks)@)[k as int] },
            ),
            None => final(tasks)@ == old(tasks)@,
        },
{
    match find_task(tasks, id) {
        Some(k) => {
            proof {
                lemma_first_in_range(tasks_view(tasks@), id);
            }
            let old_task = &tasks[k];
            let description = old_task.description.clone();
            let task = Task::with_status(old_task.id, description, status);
            tasks.set(k, task);
            assert(tasks_view(tasks@) =~= tasks_view(old(tasks)@).update(
                k as int,
                TaskView { status, ..tasks_view(old(tasks)@)[k as int] },
            ));
            Some(k)
        },
        None => None,
    }
}

/// Removes every task with id `id`; returns whether any was removed.
pub fn delete_task(tasks: &mut Vec<Task>, id: u32) -> (r: bool)
    ensures
        tasks_view(final(tasks)@) == without_id(tasks_view(old(tasks)@), id),
        r == (first_with_id(tasks_view(old(tasks)@), id) is Some),
{
    let ghost ts = tasks_view(tasks@);
    let mut kept: Vec<Task> = Vec::new();
    let mut removed = false;
    assert(ts.subrange(0, ts.len() as int) =~= ts);
    assert(tasks_view(kept@).reverse() =~= Seq::<TaskView>::empty());
    assert(without_id(ts, id) =~= without_id(ts, id) + Seq::<TaskView>::empty());
    assert(ts.subrange(ts.len() as int, ts.len() as int) =~= Seq::<TaskView>::empty());
    while tasks.len() > 0
        invariant
            ({
                let n = tasks.len() as int;
                &&& n <= ts.len()
                &&& tasks_view(tasks@) == ts.subrange(0, n)
                &&& without_id(ts, id) == without_id(ts.subrange(0, n), id) + tasks_view(
                    kept@,
                ).reverse()
                &&& removed == (first_with_id(ts.subrange(n, ts.len() as int), id) is Some)
            }),
        decreases tasks.len(),
    {
        let ghost n = tasks.len() as int;
        let ghost k_before = tasks_view(kept@);
        let task = tasks.pop().unwrap();
        assert(ts.subrange(0, n).drop_last() =~= ts.subrange(0, n - 1));
        assert(ts.subrange(0, n).last() == task@);
        proof {
            lemma_first_cons(ts, id, n - 1);
        }
        if task.id == id {
            removed = true;
        } else {
            kept.push(task);
            assert(tasks_view(kept@) =~= k_before.push(task@));
            assert(tasks_view(kept@).reverse() =~= seq![task@] + k_before.reverse());
        }
    }
    assert(ts.subrange(0, ts.len() as int) =~= ts);
    let mut out: Vec<Task> = Vec::new();
    while kept.len() > 0
        invariant
            tasks_view(out@) + tasks_view(kept@).reverse() == without_id(ts, id),
        decreases kept.len(),
    {
        let ghost k_before = tasks_view(kept@);
        let ghost o_before = tasks_view(out@);
        let task = kept.pop().unwrap();
        out.push(task);
        assert(k_before.reverse() =~= seq![task@] + tasks_view(kept@).reverse());
        assert(tasks_view(out@) =~= o_before.push(task@));
        assert(tasks_view(out@) + tasks_view(kept@).reverse() =~= o_before + k_before.reverse());
    }
    assert(tasks_view(kept@).reverse() =~= Seq::<TaskView>::empty());
    assert(tasks_view(out@) =~= without_id(ts, id));
    *tasks = out;
    removed
}

proof fn lemma_first_in_range(ts: Seq<TaskView>, id: u32)
    ensures
        match first_with_id(ts, id) {
            Some(k) => 0 <= k < ts.len() && ts[k].id == id,
            None => forall|j: int| 0 <= j < ts.len() ==> ts[j].id != id,
        },
    decreases ts.len(),
{
    if ts.len() > 0 {
        lemma_first_in_range(ts.drop_first(), id);
        if ts[0].id != id {
            match first_with_id(ts.drop_first(), id) {
                Some(k) => {},
                None => {
                    assert forall|j: int| 0 <= j < ts.len() implies ts[j].id != id by {
                        if j > 0 {
                            assert(ts[j] == ts.drop_first()[j - 1]);
                        }
                    }
                },
            }
        }
    }
}

/// Whether some task from index `k` on has id `id`, in terms of the task at
/// `k` and those after it.
proof fn lemma_first_cons(ts: Seq<TaskView>, id: u32, k: int)
    requires
        0 <= k < ts.len(),
    ensures
        (first_with_id(ts.subrange(k, ts.len() as int), id) is Some) == (ts[k].id == id
            || first_with_id(ts.subrange(k + 1, ts.len() as int), id) is Some),
{
    assert(ts.subrange(k, ts.len() as int).drop_first() =~= ts.subrange(k + 1, ts.len() as int));
}

/// The indices of the tasks to show for `filter`.
pub fn shown(tasks: &Vec<Task>, filter: Option<TaskStatus>) -> (r: Vec<usize>)
    ensures
        r@ == shown_indices(tasks_view(tasks@), filter),
{
    let ghost ts = tasks_view(tasks@);
    let mut r: Vec<usize> = Vec::new();
    let mut i: usize = 0;
    while i < tasks.len()
        invariant
            i <= tasks.len(),
            ts == tasks_view(tasks@),
            r@ == shown_indices(ts.subrange(0, i as int), filter),
        decreases tasks.len() - i,
    {
        assert(ts.subrange(0, i + 1).drop_last() =~= ts.subrange(0, i as int));
        let keep = match filter {
            Some(st) => tasks[i].status == st,
            None => true,
        };
        if keep {
            r.push(i);
        }
        i = i + 1;
    }
    assert(ts.subrange(0, tasks.len() as int) =~= ts);
    r
}

} // verus!
