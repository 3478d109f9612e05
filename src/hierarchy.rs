use crate::laws::{all_rooted, ids_unique, lemma_assembles_iff_rooted};
use crate::task::{Task, TaskError};
use vstd::prelude::*;

verus! {

/// A task together with its subtasks, in the order the store returned them.
pub struct TaskWithKids {
    pub task: Task,
    pub subtasks: Vec<TaskWithKids>,
}

/// The tasks whose parent is `parent`, in input order (`None`: the roots).
pub open spec fn children_of(tasks: Seq<Task>, parent: Option<u32>) -> Seq<Task>
    decreases tasks.len(),
{
    if tasks.len() == 0 {
        Seq::empty()
    } else {
        let rest = children_of(tasks.drop_last(), parent);
        if tasks.last().parent_id == parent {
            rest.push(tasks.last())
        } else {
            rest
        }
    }
}

/// How many levels below a root the assembly descends: one task per level at
/// most, so a deeper chain must repeat a task.
pub open spec fn depth_budget(tasks: Seq<Task>) -> nat {
    if tasks.len() <= u32::MAX as nat {
        tasks.len()
    } else {
        u32::MAX as nat
    }
}

/// The ids of the subtree rooted at `t`, in pre-order, descending at most `fuel` levels.
pub open spec fn subtree_ids(tasks: Seq<Task>, t: Task, fuel: nat) -> Seq<u32>
    decreases fuel, 0nat, 0nat,
{
    if fuel == 0 {
        seq![t.id]
    } else {
        seq![t.id] + kids_ids(tasks, children_of(tasks, Some(t.id)), (fuel - 1) as nat)
    }
}

/// The ids of the subtrees rooted at `kids`, one after the other.
pub open spec fn kids_ids(tasks: Seq<Task>, kids: Seq<Task>, fuel: nat) -> Seq<u32>
    decreases fuel, 1nat, kids.len(),
{
    if kids.len() == 0 {
        Seq::empty()
    } else {
        kids_ids(tasks, kids.drop_last(), fuel) + subtree_ids(tasks, kids.last(), fuel)
    }
}

/// The ids that assembling the whole forest visits, in pre-order.
pub open spec fn forest_ids(tasks: Seq<Task>) -> Seq<u32> {
    kids_ids(tasks, children_of(tasks, None), depth_budget(tasks))
}

/// The forest can be assembled: every task is placed exactly once.
pub open spec fn assembles(tasks: Seq<Task>) -> bool {
    forest_ids(tasks).no_duplicates() && forest_ids(tasks).len() == tasks.len()
}

/// `node` holds its task's children, in input order, down to `fuel` levels.
pub open spec fn tree_of(node: TaskWithKids, tasks: Seq<Task>, fuel: nat) -> bool
    decreases fuel,
{
    if fuel == 0 {
        node.subtasks@.len() == 0
    } else {
        let kids = children_of(tasks, Some(node.task.id));
        &&& node.subtasks@.len() == kids.len()
        &&& forall|i: int|
            0 <= i < kids.len() ==> #[trigger] node.subtasks@[i].task == kids[i] && tree_of(
                node.subtasks@[i],
                tasks,
                (fuel - 1) as nat,
            )
    }
}

/// `forest` is the forest of `tasks`: one tree per root, in input order.
pub open spec fn forest_of(forest: Seq<TaskWithKids>, tasks: Seq<Task>) -> bool {
    let roots = children_of(tasks, None);
    &&& forest.len() == roots.len()
    &&& forall|i: int|
        0 <= i < roots.len() ==> #[trigger] forest[i].task == roots[i] && tree_of(
            forest[i],
            tasks,
            depth_budget(tasks),
        )
}

proof fn lemma_prefix_keeps_duplicate(pre: Seq<u32>, a: Seq<u32>, b: Seq<u32>)
    requires
        !(pre + a).no_duplicates(),
    ensures
        !(pre + (a + b)).no_duplicates(),
{
    let s = pre + a;
    let t = pre + (a + b);
    let (i, j) = choose|i: int, j: int|
        0 <= i < s.len() && 0 <= j < s.len() && i != j && s[i] == s[j];
    assert(t[i] == s[i] && t[j] == s[j]);
}

proof fn lemma_kids_ids_split(tasks: Seq<Task>, kids: Seq<Task>, j: int, fuel: nat)
    requires
        0 <= j <= kids.len(),
    ensures
        kids_ids(tasks, kids, fuel) == kids_ids(tasks, kids.subrange(0, j), fuel) + kids_ids(
            tasks,
            kids.subrange(j, kids.len() as int),
            fuel,
        ),
    decreases kids.len(),
{
    if j == kids.len() {
        assert(kids.subrange(0, j) =~= kids);
        assert(kids.subrange(j, kids.len() as int) =~= Seq::<Task>::empty());
        assert(kids_ids(tasks, kids, fuel) + Seq::<u32>::empty() =~= kids_ids(tasks, kids, fuel));
    } else {
        let k = kids.drop_last();
        lemma_kids_ids_split(tasks, k, j, fuel);
        assert(k.subrange(0, j) =~= kids.subrange(0, j));
        let tail = kids.subrange(j, kids.len() as int);
        assert(tail.drop_last() =~= k.subrange(j, k.len() as int));
        assert(tail.last() == kids.last());
    }
}

fn contains_id(v: &Vec<u32>, id: u32) -> (r: bool)
    ensures
        r == v@.contains(id),
{
    let mut i: usize = 0;
    while i < v.len()
        invariant
            i <= v.len(),
            forall|k: int| 0 <= k < i ==> v@[k] != id,
        decreases v.len() - i,
    {
        if v[i] == id {
            return true;
        }
        i += 1;
    }
    false
}

fn same_parent(a: Option<u32>, b: Option<u32>) -> (r: bool)
    ensures
        r == (a == b),
{
    match (a, b) {
        (Some(x), Some(y)) => x == y,
        (None, None) => true,
        _ => false,
    }
}

/// The tasks whose parent is `parent`, copied in input order.
pub fn child_tasks(tasks: &Vec<Task>, parent: Option<u32>) -> (r: Vec<Task>)
    ensures
        r@ == children_of(tasks@, parent),
{
    let mut r: Vec<Task> = Vec::new();
    let mut i: usize = 0;
    while i < tasks.len()
        invariant
            i <= tasks.len(),
            r@ == children_of(tasks@.subrange(0, i as int), parent),
        decreases tasks.len() - i,
    {
        proof {
            let s = tasks@.subrange(0, i + 1);
            assert(s.drop_last() =~= tasks@.subrange(0, i as int));
            assert(s.last() == tasks@[i as int]);
        }
        if same_parent(tasks[i].parent_id, parent) {
            r.push(tasks[i].snapshot());
        }
        i += 1;
    }
    assert(tasks@.subrange(0, tasks.len() as int) =~= tasks@);
    r
}

impl TaskWithKids {
    /// Assembles the subtree under `parent`, descending at most `budget` levels,
    /// and appends the ids it places to `visited`. Fails as soon as an id is
    /// placed twice.
    pub fn get_recursive(parent: Task, tasks: &Vec<Task>, budget: usize, visited: &mut Vec<u32>) -> (r:
        Result<TaskWithKids, TaskError>)
        requires
            old(visited)@.no_duplicates(),
        ensures
            r is Ok <==> (old(visited)@ + subtree_ids(tasks@, parent, budget as nat)).no_duplicates(),
            r is Err ==> r == Err::<TaskWithKids, TaskError>(TaskError::Cycle),
            r matches Ok(node) ==> {
                &&& node.task == parent
                &&& tree_of(node, tasks@, budget as nat)
                &&& final(visited)@ == old(visited)@ + subtree_ids(tasks@, parent, budget as nat)
            },
        decreases budget,
    {
        let ghost v0 = visited@;
        let ghost ids = subtree_ids(tasks@, parent, budget as nat);
        if contains_id(visited, parent.id) {
            proof {
                let s = v0 + ids;
                let k = choose|k: int| 0 <= k < v0.len() && v0[k] == parent.id;
                assert(s[k] == s[v0.len() as int]);
            }
            return Err(TaskError::Cycle);
        }
        visited.push(parent.id);
        let mut subtasks: Vec<TaskWithKids> = Vec::new();
        if budget > 0 {
            let kids = child_tasks(tasks, Some(parent.id));
            let ghost fuel = (budget - 1) as nat;
            let mut i: usize = 0;
            while i < kids.len()
                invariant
                    0 < budget,
                    fuel == budget - 1,
                    v0 == old(visited)@,
                    ids == subtree_ids(tasks@, parent, budget as nat),
                    i <= kids.len(),
                    kids@ == children_of(tasks@, Some(parent.id)),
                    ids == seq![parent.id] + kids_ids(tasks@, kids@, fuel),
                    visited@ == v0 + (seq![parent.id] + kids_ids(
                        tasks@,
                        kids@.subrange(0, i as int),
                        fuel,
                    )),
                    visited@.no_duplicates(),
                    subtasks@.len() == i,
                    forall|k: int|
                        0 <= k < i ==> #[trigger] subtasks@[k].task == kids@[k] && tree_of(
                            subtasks@[k],
                            tasks@,
                            fuel,
                        ),
                decreases kids.len() - i,
            {
                let ghost before = visited@;
                let ghost done = kids@.subrange(0, i as int);
                let ghost upto = kids@.subrange(0, i + 1);
                proof {
                    assert(upto.drop_last() =~= done);
                    assert(upto.last() == kids@[i as int]);
                }
                let child = kids[i].snapshot();
                match Self::get_recursive(child, tasks, budget - 1, visited) {
                    Ok(node) => {
                        proof {
                            assert(visited@ =~= v0 + (seq![parent.id] + kids_ids(tasks@, upto, fuel)));
                        }
                        subtasks.push(node);
                    },
                    Err(e) => {
                        proof {
                            let sub = subtree_ids(tasks@, kids@[i as int], fuel);
                            lemma_kids_ids_split(tasks@, kids@, i + 1, fuel);
                            let rest = kids_ids(tasks@, kids@.subrange(i + 1, kids@.len() as int), fuel);
                            assert(before + sub =~= v0 + (seq![parent.id] + kids_ids(tasks@, upto, fuel)));
                            lemma_prefix_keeps_duplicate(
                                v0,
                                seq![parent.id] + kids_ids(tasks@, upto, fuel),
                                rest,
                            );
                            assert(seq![parent.id] + kids_ids(tasks@, upto, fuel) + rest =~= ids);
                        }
                        return Err(e);
                    },
                }
                i += 1;
            }
            assert(kids@.subrange(0, kids.len() as int) =~= kids@);
        } else {
            assert(visited@ =~= v0 + ids);
        }
        let node = TaskWithKids { task: parent, subtasks };
        assert(node.subtasks@ == subtasks@);
        Ok(node)
    }
}

/// Assembles the forest of `tasks`: the roots in input order, each with its
/// subtasks below it. Fails with `Cycle` when some task is never placed, or
/// placed twice; with unique ids, exactly when some chain of parents loops
/// or breaks off.
pub fn build_forest(tasks: &Vec<Task>) -> (r: Result<Vec<TaskWithKids>, TaskError>)
    ensures
        r is Ok <==> assembles(tasks@),
        ids_unique(tasks@) ==> (r is Ok <==> all_rooted(tasks@)),
        r is Err ==> r == Err::<Vec<TaskWithKids>, TaskError>(TaskError::Cycle),
        r matches Ok(forest) ==> forest_of(forest@, tasks@) && forest_depth_fits(forest@),
{
    proof {
        if ids_unique(tasks@) {
            lemma_assembles_iff_rooted(tasks@);
        }
    }
    let budget: usize = if tasks.len() <= u32::MAX as usize {
        tasks.len()
    } else {
        u32::MAX as usize
    };
    let ghost fuel = depth_budget(tasks@);
    let roots = child_tasks(tasks, None);
    let mut visited: Vec<u32> = Vec::new();
    let mut forest: Vec<TaskWithKids> = Vec::new();
    let mut i: usize = 0;
    while i < roots.len()
        invariant
            budget as nat == fuel,
            fuel == depth_budget(tasks@),
            ids_unique(tasks@) ==> (assembles(tasks@) <==> all_rooted(tasks@)),
            i <= roots.len(),
            roots@ == children_of(tasks@, None),
            visited@ == kids_ids(tasks@, roots@.subrange(0, i as int), fuel),
            visited@.no_duplicates(),
            forest@.len() == i,
            forall|k: int|
                0 <= k < i ==> #[trigger] forest@[k].task == roots@[k] && tree_of(
                    forest@[k],
                    tasks@,
                    fuel,
                ),
        decreases roots.len() - i,
    {
        let ghost before = visited@;
        let ghost upto = roots@.subrange(0, i + 1);
        proof {
            assert(upto.drop_last() =~= roots@.subrange(0, i as int));
            assert(upto.last() == roots@[i as int]);
        }
        let root = roots[i].snapshot();
        match TaskWithKids::get_recursive(root, tasks, budget, &mut visited) {
            Ok(node) => {
                forest.push(node);
            },
            Err(e) => {
                proof {
                    lemma_kids_ids_split(tasks@, roots@, i + 1, fuel);
                    let a = kids_ids(tasks@, upto, fuel);
                    let rest = kids_ids(tasks@, roots@.subrange(i + 1, roots@.len() as int), fuel);
                    assert(Seq::<u32>::empty() + a =~= before + subtree_ids(tasks@, roots@[i as int], fuel));
                    lemma_prefix_keeps_duplicate(Seq::empty(), a, rest);
                    assert(Seq::<u32>::empty() + (a + rest) =~= forest_ids(tasks@));
                }
                return Err(e);
            },
        }
        i += 1;
    }
    assert(roots@.subrange(0, roots.len() as int) =~= roots@);
    if visited.len() != tasks.len() {
        return Err(TaskError::Cycle);
    }
    proof {
        lemma_forest_depth_fits(forest@, tasks@);
    }
    Ok(forest)
}

/// One line of the flattened view: a task, how deep it sits, and the ids from
/// its root down to itself.
pub struct FlatTask {
    pub task: Task,
    pub depth: u32,
    pub parent_path: Vec<u32>,
    pub index_in_parent: usize,
}

/// What a flattened line says, its position aside.
pub struct FlatEntry {
    pub task: Task,
    pub depth: nat,
    pub path: Seq<u32>,
}

impl View for FlatTask {
    type V = FlatEntry;

    open spec fn view(&self) -> FlatEntry {
        FlatEntry { task: self.task, depth: self.depth as nat, path: self.parent_path@ }
    }
}

/// The lines of the subtree at `node`, in pre-order: the node, then each
/// child's subtree in turn.
pub open spec fn flat_tree(node: TaskWithKids, depth: nat, path: Seq<u32>) -> Seq<FlatEntry>
    decreases node,
{
    let here = path.push(node.task.id);
    seq![FlatEntry { task: node.task, depth, path: here }] + flat_kids(
        node.subtasks@,
        depth + 1,
        here,
    )
}

/// The lines of the subtrees at `kids`, one after the other.
pub open spec fn flat_kids(kids: Seq<TaskWithKids>, depth: nat, path: Seq<u32>) -> Seq<FlatEntry>
    decreases kids,
{
    if kids.len() == 0 {
        Seq::empty()
    } else {
        flat_kids(kids.subrange(0, kids.len() - 1), depth, path) + flat_tree(
            kids[kids.len() - 1],
            depth,
            path,
        )
    }
}

/// The flattened view of a forest: each root at depth 0, in order.
pub open spec fn flat_forest(forest: Seq<TaskWithKids>) -> Seq<FlatEntry> {
    flat_kids(forest, 0, Seq::empty())
}

/// Every node of the subtree at `node`, placed at `depth`, has a depth that
/// fits in a `u32`, and so does every child's.
pub open spec fn depth_fits(node: TaskWithKids, depth: nat) -> bool
    decreases node,
{
    &&& depth <= u32::MAX
    &&& forall|i: int|
        0 <= i < node.subtasks@.len() ==> depth_fits(#[trigger] node.subtasks@[i], depth + 1)
}

/// Every tree of `forest` fits, its root at depth 0.
pub open spec fn forest_depth_fits(forest: Seq<TaskWithKids>) -> bool {
    forall|i: int| 0 <= i < forest.len() ==> depth_fits(#[trigger] forest[i], 0)
}

/// The lines `result` holds are numbered by their position.
pub open spec fn numbered(result: Seq<FlatTask>) -> bool {
    forall|k: int| 0 <= k < result.len() ==> #[trigger] result[k].index_in_parent == k
}

proof fn lemma_tree_depth_fits(node: TaskWithKids, tasks: Seq<Task>, fuel: nat, depth: nat)
    requires
        tree_of(node, tasks, fuel),
        depth + fuel <= u32::MAX,
    ensures
        depth_fits(node, depth),
    decreases fuel,
{
    if fuel > 0 {
        assert forall|i: int| 0 <= i < node.subtasks@.len() implies depth_fits(
            #[trigger] node.subtasks@[i],
            depth + 1,
        ) by {
            lemma_tree_depth_fits(node.subtasks@[i], tasks, (fuel - 1) as nat, depth + 1);
        }
    }
}

/// An assembled forest fits: no task sits deeper than a `u32` can count.
pub proof fn lemma_forest_depth_fits(forest: Seq<TaskWithKids>, tasks: Seq<Task>)
    requires
        forest_of(forest, tasks),
    ensures
        forest_depth_fits(forest),
{
    assert forall|i: int| 0 <= i < forest.len() implies depth_fits(#[trigger] forest[i], 0) by {
        lemma_tree_depth_fits(forest[i], tasks, depth_budget(tasks), 0);
    }
}

fn copy_path(p: &Vec<u32>) -> (r: Vec<u32>)
    ensures
        r@ == p@,
{
    let r = p.clone();
    assert(r@ =~= p@);
    r
}

fn flatten_task_tree(node: &TaskWithKids, depth: u32, parent_path: Vec<u32>, result: &mut Vec<FlatTask>)
    requires
        depth_fits(*node, depth as nat),
        numbered(old(result)@),
    ensures
        numbered(final(result)@),
        final(result)@.map_values(|e: FlatTask| e@) == old(result)@.map_values(|e: FlatTask| e@)
            + flat_tree(*node, depth as nat, parent_path@),
    decreases node,
{
    let ghost r0 = result@.map_values(|e: FlatTask| e@);
    let mut current_path = parent_path;
    current_path.push(node.task.id);
    let index = result.len();
    result.push(FlatTask {
        task: node.task.snapshot(),
        depth,
        parent_path: copy_path(&current_path),
        index_in_parent: index,
    });
    let ghost here = current_path@;
    let ghost head = seq![FlatEntry { task: node.task, depth: depth as nat, path: here }];
    assert(result@.map_values(|e: FlatTask| e@) =~= r0 + head);
    let mut i: usize = 0;
    while i < node.subtasks.len()
        invariant
            depth_fits(*node, depth as nat),
            here == parent_path@.push(node.task.id),
            current_path@ == here,
            i <= node.subtasks@.len(),
            numbered(result@),
            result@.map_values(|e: FlatTask| e@) == r0 + head + flat_kids(
                node.subtasks@.subrange(0, i as int),
                (depth + 1) as nat,
                here,
            ),
        decreases node.subtasks@.len() - i,
    {
        let ghost upto = node.subtasks@.subrange(0, i + 1);
        proof {
            assert(upto.subrange(0, upto.len() - 1) =~= node.subtasks@.subrange(0, i as int));
            assert(upto[upto.len() - 1] == node.subtasks@[i as int]);
            assert(depth_fits(node.subtasks@[i as int], (depth + 1) as nat));
            assert(decreases_to!(*node => node.subtasks@[i as int]));
        }
        flatten_task_tree(&node.subtasks[i], depth + 1, copy_path(&current_path), result);
        assert(result@.map_values(|e: FlatTask| e@) =~= r0 + head + flat_kids(upto, (depth + 1) as nat, here));
        i += 1;
    }
    assert(node.subtasks@.subrange(0, node.subtasks@.len() as int) =~= node.subtasks@);
    assert(r0 + head + flat_kids(node.subtasks@, (depth + 1) as nat, here) =~= r0 + flat_tree(
        *node,
        depth as nat,
        parent_path@,
    ));
}

/// The flattened view of `forest`: a pre-order walk, each line numbered by
/// its position.
pub fn flatten_forest(forest: &[TaskWithKids]) -> (r: Vec<FlatTask>)
    requires
        forest_depth_fits(forest@),
    ensures
        numbered(r@),
        r@.map_values(|e: FlatTask| e@) == flat_forest(forest@),
{
    let mut result: Vec<FlatTask> = Vec::new();
    let mut i: usize = 0;
    assert(result@.map_values(|e: FlatTask| e@) =~= Seq::<FlatEntry>::empty());
    while i < forest.len()
        invariant
            forest_depth_fits(forest@),
            i <= forest@.len(),
            numbered(result@),
            result@.map_values(|e: FlatTask| e@) == flat_kids(
                forest@.subrange(0, i as int),
                0,
                Seq::empty(),
            ),
        decreases forest@.len() - i,
    {
        let ghost upto = forest@.subrange(0, i + 1);
        proof {
            assert(upto.subrange(0, upto.len() - 1) =~= forest@.subrange(0, i as int));
            assert(upto[upto.len() - 1] == forest@[i as int]);
        }
        let root_path: Vec<u32> = Vec::new();
        assert(root_path@ =~= Seq::<u32>::empty());
        flatten_task_tree(&forest[i], 0, root_path, &mut result);
        i += 1;
    }
    assert(forest@.subrange(0, forest@.len() as int) =~= forest@);
    result
}

} // verus!
