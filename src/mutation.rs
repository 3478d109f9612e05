use crate::task::{CreateTask, Task, TaskError, UpdateTask};
use vstd::prelude::*;

verus! {

/// `k` is the first task of `tasks` with id `id`.
pub open spec fn first_task_at(tasks: Seq<Task>, id: u32, k: int) -> bool {
    &&& 0 <= k < tasks.len()
    &&& tasks[k].id == id
    &&& forall|j: int| 0 <= j < k ==> #[trigger] tasks[j].id != id
}

/// Checks a new task: its name must not be empty.
pub fn plan_create(name: String, parent_id: Option<u32>, description: Option<String>) -> (r: Result<
    CreateTask,
    TaskError,
>)
    ensures
        name@.len() == 0 ==> r == Err::<CreateTask, TaskError>(TaskError::Validation),
        name@.len() > 0 ==> (r matches Ok(c) && c.name == name && c.parent_id == parent_id
            && c.description == description),
{
    if name.as_str().is_empty() {
        return Err(TaskError::Validation);
    }
    Ok(CreateTask { name, parent_id, description })
}

/// Checks a change to task `id`. A name, where given, must not be empty.
/// With no field given there is nothing to write: `Ok(None)`, and the store
/// is left alone.
pub fn plan_update(
    id: u32,
    name: Option<String>,
    description: Option<String>,
    parent_id: Option<u32>,
    completed: Option<bool>,
) -> (r: Result<Option<UpdateTask>, TaskError>)
    ensures
        (name matches Some(n) && n@.len() == 0) ==> r == Err::<Option<UpdateTask>, TaskError>(
            TaskError::Validation,
        ),
        name is None && description is None && parent_id is None && completed is None ==> r
            == Ok::<Option<UpdateTask>, TaskError>(None),
        !(name matches Some(n) && n@.len() == 0) && (name is Some || description is Some
            || parent_id is Some || completed is Some) ==> (r matches Ok(Some(u)) && u.id == id
            && u.name == name && u.description == description && u.parent_id == parent_id
            && u.completed == completed),
{
    let empty_name = match &name {
        Some(n) => n.as_str().is_empty(),
        None => false,
    };
    if empty_name {
        return Err(TaskError::Validation);
    }
    let update = UpdateTask { id, name, parent_id, description, completed };
    if !update.updated() {
        return Ok(None);
    }
    Ok(Some(update))
}

/// The first task of `tasks` with id `id`.
pub fn find_task(tasks: &Vec<Task>, id: u32) -> (r: Result<Task, TaskError>)
    ensures
        r is Err <==> forall|k: int| 0 <= k < tasks@.len() ==> #[trigger] tasks@[k].id != id,
        r is Err ==> r == Err::<Task, TaskError>(TaskError::NotFound),
        r matches Ok(t) ==> exists|k: int| first_task_at(tasks@, id, k) && t == tasks@[k],
{
    let mut i: usize = 0;
    while i < tasks.len()
        invariant
            i <= tasks@.len(),
            forall|j: int| 0 <= j < i ==> #[trigger] tasks@[j].id != id,
        decreases tasks@.len() - i,
    {
        if tasks[i].id == id {
            let t = tasks[i].snapshot();
            assert(first_task_at(tasks@, id, i as int));
            return Ok(t);
        }
        i += 1;
    }
    Err(TaskError::NotFound)
}

/// The update that flips the completion of task `id`, read from `tasks`.
pub fn plan_toggle(tasks: &Vec<Task>, id: u32) -> (r: Result<UpdateTask, TaskError>)
    ensures
        r is Err <==> forall|k: int| 0 <= k < tasks@.len() ==> #[trigger] tasks@[k].id != id,
        r is Err ==> r == Err::<UpdateTask, TaskError>(TaskError::NotFound),
        r matches Ok(u) ==> exists|k: int|
            first_task_at(tasks@, id, k) && u.id == id && u.name is None && u.description is None
                && u.parent_id is None && u.completed == Some(!tasks@[k].completed),
{
    match find_task(tasks, id) {
        Ok(t) => Ok(toggled(&t)),
        Err(e) => Err(e),
    }
}

/// The update that flips the completion of `t`, leaving the rest.
pub fn toggled(t: &Task) -> (r: UpdateTask)
    ensures
        r.id == t.id,
        r.name is None,
        r.description is None,
        r.parent_id is None,
        r.completed == Some(!t.completed),
{
    UpdateTask { id: t.id, name: None, parent_id: None, description: None, completed: Some(!t.completed) }
}

/// Some task of `tasks` has id `id`.
pub open spec fn has_id(tasks: Seq<Task>, id: u32) -> bool {
    exists|k: int| 0 <= k < tasks.len() && #[trigger] tasks[k].id == id
}

/// The position of the first task with id `id`.
pub open spec fn first_index(tasks: Seq<Task>, id: u32) -> int {
    choose|k: int| first_task_at(tasks, id, k)
}

/// Walking up from `t`, through the first task that holds each parent id, a
/// root is reached within `n` steps and no task on the way has id `id`.
pub open spec fn clear_of(tasks: Seq<Task>, t: Task, id: u32, n: nat) -> bool
    decreases n,
{
    t.id != id && match t.parent_id {
        None => true,
        Some(q) => n > 0 && has_id(tasks, q) && clear_of(
            tasks,
            tasks[first_index(tasks, q)],
            id,
            (n - 1) as nat,
        ),
    }
}

proof fn lemma_first_index(tasks: Seq<Task>, id: u32, k: int)
    requires
        first_task_at(tasks, id, k),
    ensures
        first_index(tasks, id) == k,
{
    let f = first_index(tasks, id);
    assert(first_task_at(tasks, id, f));
    if f < k {
        assert(tasks[f].id != id);
    }
    if k < f {
        assert(tasks[k].id != id);
    }
}

/// Checks that task `id` may hang below `parent_id`: the parent exists, and
/// walking up from it reaches a root without meeting task `id`, so the move
/// makes no task its own ancestor.
pub fn check_parent(tasks: &Vec<Task>, id: u32, parent_id: Option<u32>) -> (r: Result<(), TaskError>)
    ensures
        match parent_id {
            None => r is Ok,
            Some(p) => if !has_id(tasks@, p) {
                r == Err::<(), TaskError>(TaskError::NotFound)
            } else if clear_of(tasks@, tasks@[first_index(tasks@, p)], id, tasks@.len() as nat) {
                r is Ok
            } else {
                r == Err::<(), TaskError>(TaskError::Cycle)
            },
        },
{
    let p = match parent_id {
        None => return Ok(()),
        Some(p) => p,
    };
    let first = match find_task(tasks, p) {
        Ok(t) => t,
        Err(e) => return Err(e),
    };
    let ghost start = first;
    proof {
        let k = choose|k: int| first_task_at(tasks@, p, k) && first == tasks@[k];
        lemma_first_index(tasks@, p, k);
    }
    let mut cur = first;
    let mut steps: usize = tasks.len();
    loop
        invariant
            parent_id == Some(p),
            has_id(tasks@, p),
            start == tasks@[first_index(tasks@, p)],
            clear_of(tasks@, start, id, tasks@.len() as nat) <==> clear_of(
                tasks@,
                cur,
                id,
                steps as nat,
            ),
        decreases steps,
    {
        if cur.id == id {
            return Err(TaskError::Cycle);
        }
        match cur.parent_id {
            None => {
                return Ok(());
            },
            Some(q) => {
                if steps == 0 {
                    return Err(TaskError::Cycle);
                }
                match find_task(tasks, q) {
                    Ok(t) => {
                        proof {
                            let k = choose|k: int| first_task_at(tasks@, q, k) && t == tasks@[k];
                            lemma_first_index(tasks@, q, k);
                        }
                        cur = t;
                        steps = steps - 1;
                    },
                    Err(_) => {
                        return Err(TaskError::Cycle);
                    },
                }
            },
        }
    }
}

} // verus!
