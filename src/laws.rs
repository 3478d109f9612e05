use crate::hierarchy::{
    assembles, children_of, depth_budget, flat_forest, flat_kids, flat_tree, forest_ids,
    forest_of, kids_ids, subtree_ids, tree_of, FlatEntry, TaskWithKids,
};
use crate::task::Task;
use vstd::prelude::*;

verus! {

/// `t` hangs below the last of `ancestors`, or is a root when there are none.
pub open spec fn parent_ok(t: Task, ancestors: Seq<u32>) -> bool {
    if ancestors.len() == 0 {
        t.parent_id is None
    } else {
        t.parent_id == Some(ancestors.last())
    }
}

/// No two tasks share an id.
pub open spec fn ids_unique(tasks: Seq<Task>) -> bool {
    forall|i: int, j: int|
        0 <= i < tasks.len() && 0 <= j < tasks.len() && i != j ==> #[trigger] tasks[i].id
            != #[trigger] tasks[j].id
}

/// Following parents from `t`, a root is reached within `n` steps, each
/// parent being a task of `tasks`.
pub open spec fn reaches_root(tasks: Seq<Task>, t: Task, n: nat) -> bool
    decreases n,
{
    match t.parent_id {
        None => true,
        Some(q) => n > 0 && exists|j: int|
            0 <= j < tasks.len() && #[trigger] tasks[j].id == q && reaches_root(
                tasks,
                tasks[j],
                (n - 1) as nat,
            ),
    }
}

/// Every task's chain of parents ends at a root, within as many steps as the
/// assembly descends: no chain loops and none breaks off.
pub open spec fn all_rooted(tasks: Seq<Task>) -> bool {
    forall|i: int| 0 <= i < tasks.len() ==> reaches_root(tasks, #[trigger] tasks[i], depth_budget(tasks))
}

/// The lines of the subtree under `t`, read from `tasks` alone.
spec fn task_lines(tasks: Seq<Task>, t: Task, fuel: nat, d: nat, p: Seq<u32>) -> Seq<FlatEntry>
    decreases fuel, 0nat, 0nat,
{
    let here = p.push(t.id);
    seq![FlatEntry { task: t, depth: d, path: here }] + if fuel == 0 {
        Seq::empty()
    } else {
        kids_lines(tasks, children_of(tasks, Some(t.id)), (fuel - 1) as nat, d + 1, here)
    }
}

spec fn kids_lines(tasks: Seq<Task>, kids: Seq<Task>, fuel: nat, d: nat, p: Seq<u32>) -> Seq<
    FlatEntry,
>
    decreases fuel, 1nat, kids.len(),
{
    if kids.len() == 0 {
        Seq::empty()
    } else {
        kids_lines(tasks, kids.drop_last(), fuel, d, p) + task_lines(tasks, kids.last(), fuel, d, p)
    }
}

spec fn forest_lines(tasks: Seq<Task>) -> Seq<FlatEntry> {
    kids_lines(tasks, children_of(tasks, None), depth_budget(tasks), 0, Seq::empty())
}

spec fn entry_ids(s: Seq<FlatEntry>) -> Seq<u32> {
    s.map_values(|e: FlatEntry| e.task.id)
}

spec fn node_tasks(kids: Seq<TaskWithKids>) -> Seq<Task> {
    kids.map_values(|k: TaskWithKids| k.task)
}

/// The id at position `j` of `path` is a task of `tasks` whose parent is the id before.
spec fn chain_link(tasks: Seq<Task>, path: Seq<u32>, j: int) -> bool {
    exists|i: int|
        0 <= i < tasks.len() && #[trigger] tasks[i].id == path[j] && parent_ok(
            tasks[i],
            path.subrange(0, j),
        )
}

/// A line found below path `p` at depth `d` or deeper.
spec fn placed_well(e: FlatEntry, tasks: Seq<Task>, d: nat, p: Seq<u32>) -> bool {
    &&& e.depth >= d
    &&& e.path.len() == p.len() + (e.depth - d) + 1
    &&& e.path.subrange(0, p.len() as int) == p
    &&& e.path.last() == e.task.id
    &&& tasks.contains(e.task)
    &&& parent_ok(e.task, e.path.drop_last())
    &&& forall|j: int| p.len() <= j < e.path.len() ==> #[trigger] chain_link(tasks, e.path, j)
}

spec fn has_line(s: Seq<FlatEntry>, c: Task, depth: nat) -> bool {
    exists|k: int| 0 <= k < s.len() && #[trigger] s[k].task == c && s[k].depth == depth
}

/// Every line shallower than `limit` has each of its task's children on a
/// line one level deeper.
spec fn closed(s: Seq<FlatEntry>, tasks: Seq<Task>, limit: nat) -> bool {
    forall|k: int, c: Task|
        0 <= k < s.len() && s[k].depth < limit && #[trigger] children_of(
            tasks,
            Some(#[trigger] s[k].task.id),
        ).contains(c) ==> has_line(s, c, s[k].depth + 1)
}

proof fn lemma_children_of(tasks: Seq<Task>, parent: Option<u32>)
    ensures
        forall|i: int|
            0 <= i < children_of(tasks, parent).len() ==> tasks.contains(
                #[trigger] children_of(tasks, parent)[i],
            ) && children_of(tasks, parent)[i].parent_id == parent,
    decreases tasks.len(),
{
    if tasks.len() > 0 {
        let rest = tasks.drop_last();
        lemma_children_of(rest, parent);
        let c = children_of(tasks, parent);
        assert forall|i: int| 0 <= i < c.len() implies tasks.contains(#[trigger] c[i])
            && c[i].parent_id == parent by {
            if i < children_of(rest, parent).len() {
                let x = c[i];
                assert(rest.contains(x));
                let j = choose|j: int| 0 <= j < rest.len() && rest[j] == x;
                assert(tasks[j] == x);
            } else {
                assert(tasks[tasks.len() - 1] == c[i]);
            }
        }
    }
}

proof fn lemma_children_include(tasks: Seq<Task>, t: Task)
    requires
        tasks.contains(t),
    ensures
        children_of(tasks, t.parent_id).contains(t),
    decreases tasks.len(),
{
    let rest = tasks.drop_last();
    if tasks.last() != t {
        let j = choose|j: int| 0 <= j < tasks.len() && tasks[j] == t;
        assert(rest[j] == t);
        lemma_children_include(rest, t);
        let c = children_of(rest, t.parent_id);
        let k = choose|k: int| 0 <= k < c.len() && c[k] == t;
        assert(children_of(tasks, t.parent_id)[k] == t);
    } else {
        let c = children_of(tasks, t.parent_id);
        assert(c[c.len() - 1] == t);
    }
}

proof fn lemma_children_distinct(tasks: Seq<Task>, parent: Option<u32>)
    requires
        ids_unique(tasks),
    ensures
        ids_unique(children_of(tasks, parent)),
    decreases tasks.len(),
{
    if tasks.len() > 0 {
        let rest = tasks.drop_last();
        assert(ids_unique(rest)) by {
            assert forall|i: int, j: int|
                0 <= i < rest.len() && 0 <= j < rest.len() && i != j implies #[trigger] rest[i].id
                != #[trigger] rest[j].id by {
                assert(rest[i] == tasks[i] && rest[j] == tasks[j]);
            }
        }
        lemma_children_distinct(rest, parent);
        lemma_children_of(rest, parent);
        let c0 = children_of(rest, parent);
        let c = children_of(tasks, parent);
        if tasks.last().parent_id == parent {
            assert forall|i: int, j: int|
                0 <= i < c.len() && 0 <= j < c.len() && i != j implies #[trigger] c[i].id
                != #[trigger] c[j].id by {
                if i < c0.len() && j < c0.len() {
                    assert(c[i] == c0[i] && c[j] == c0[j]);
                } else {
                    let k = if i < c0.len() { i } else { j };
                    assert(rest.contains(c0[k]));
                    let m = choose|m: int| 0 <= m < rest.len() && rest[m] == c0[k];
                    assert(tasks[m].id != tasks[tasks.len() - 1].id);
                }
            }
        }
    }
}

proof fn lemma_tree_lines(node: TaskWithKids, tasks: Seq<Task>, fuel: nat, d: nat, p: Seq<u32>)
    requires
        tree_of(node, tasks, fuel),
    ensures
        flat_tree(node, d, p) == task_lines(tasks, node.task, fuel, d, p),
    decreases fuel, 0nat, 0nat,
{
    let here = p.push(node.task.id);
    let kids = node.subtasks@;
    if fuel > 0 {
        let c = children_of(tasks, Some(node.task.id));
        assert forall|i: int| 0 <= i < kids.len() implies tree_of(
            #[trigger] kids[i],
            tasks,
            (fuel - 1) as nat,
        ) by {
            assert(kids[i].task == c[i]);
        }
        lemma_kids_lines(kids, tasks, (fuel - 1) as nat, d + 1, here);
        assert(node_tasks(kids) =~= c);
    } else {
        assert(flat_kids(kids, d + 1, here) =~= Seq::<FlatEntry>::empty());
    }
}

proof fn lemma_kids_lines(kids: Seq<TaskWithKids>, tasks: Seq<Task>, fuel: nat, d: nat, p: Seq<u32>)
    requires
        forall|i: int| 0 <= i < kids.len() ==> tree_of(#[trigger] kids[i], tasks, fuel),
    ensures
        flat_kids(kids, d, p) == kids_lines(tasks, node_tasks(kids), fuel, d, p),
    decreases fuel, 1nat, kids.len(),
{
    if kids.len() > 0 {
        let front = kids.subrange(0, kids.len() - 1);
        assert forall|i: int| 0 <= i < front.len() implies tree_of(
            #[trigger] front[i],
            tasks,
            fuel,
        ) by {
            assert(front[i] == kids[i]);
        }
        lemma_kids_lines(front, tasks, fuel, d, p);
        lemma_tree_lines(kids[kids.len() - 1], tasks, fuel, d, p);
        assert(node_tasks(kids).drop_last() =~= node_tasks(front));
    }
}

proof fn lemma_forest_lines(tasks: Seq<Task>, forest: Seq<TaskWithKids>)
    requires
        forest_of(forest, tasks),
    ensures
        flat_forest(forest) == forest_lines(tasks),
{
    let roots = children_of(tasks, None);
    assert forall|i: int| 0 <= i < forest.len() implies tree_of(
        #[trigger] forest[i],
        tasks,
        depth_budget(tasks),
    ) by {
        assert(forest[i].task == roots[i]);
    }
    lemma_kids_lines(forest, tasks, depth_budget(tasks), 0, Seq::empty());
    assert(node_tasks(forest) =~= roots);
}

proof fn lemma_tree_ids(tasks: Seq<Task>, t: Task, fuel: nat, d: nat, p: Seq<u32>)
    ensures
        entry_ids(task_lines(tasks, t, fuel, d, p)) == subtree_ids(tasks, t, fuel),
    decreases fuel, 0nat, 0nat,
{
    let here = p.push(t.id);
    let head = seq![FlatEntry { task: t, depth: d, path: here }];
    if fuel > 0 {
        let below = kids_lines(tasks, children_of(tasks, Some(t.id)), (fuel - 1) as nat, d + 1, here);
        lemma_kids_ids(tasks, children_of(tasks, Some(t.id)), (fuel - 1) as nat, d + 1, here);
        assert(entry_ids(head + below) =~= seq![t.id] + entry_ids(below));
    } else {
        assert(entry_ids(head + Seq::empty()) =~= seq![t.id]);
    }
}

proof fn lemma_kids_ids(tasks: Seq<Task>, kids: Seq<Task>, fuel: nat, d: nat, p: Seq<u32>)
    ensures
        entry_ids(kids_lines(tasks, kids, fuel, d, p)) == kids_ids(tasks, kids, fuel),
    decreases fuel, 1nat, kids.len(),
{
    if kids.len() == 0 {
        assert(entry_ids(kids_lines(tasks, kids, fuel, d, p)) =~= Seq::<u32>::empty());
    } else {
        lemma_kids_ids(tasks, kids.drop_last(), fuel, d, p);
        lemma_tree_ids(tasks, kids.last(), fuel, d, p);
        let a = kids_lines(tasks, kids.drop_last(), fuel, d, p);
        let b = task_lines(tasks, kids.last(), fuel, d, p);
        assert(entry_ids(a + b) =~= entry_ids(a) + entry_ids(b));
    }
}

proof fn lemma_step_out(e: FlatEntry, tasks: Seq<Task>, d: nat, p: Seq<u32>, t: Task)
    requires
        placed_well(e, tasks, d + 1, p.push(t.id)),
        tasks.contains(t),
        parent_ok(t, p),
    ensures
        placed_well(e, tasks, d, p),
        e.path[p.len() as int] == t.id,
{
    let q = p.push(t.id);
    assert(e.path[p.len() as int] == e.path.subrange(0, q.len() as int)[p.len() as int]);
    assert(e.path.subrange(0, p.len() as int) =~= e.path.subrange(0, q.len() as int).subrange(
        0,
        p.len() as int,
    ));
    assert(e.path.subrange(0, p.len() as int) =~= p);
    let i = choose|i: int| 0 <= i < tasks.len() && tasks[i] == t;
    assert forall|j: int| p.len() <= j < e.path.len() implies #[trigger] chain_link(
        tasks,
        e.path,
        j,
    ) by {
        if j == p.len() {
            assert(tasks[i].id == e.path[j]);
        }
    }
}

proof fn lemma_tree_placed(tasks: Seq<Task>, t: Task, fuel: nat, d: nat, p: Seq<u32>)
    requires
        tasks.contains(t),
        parent_ok(t, p),
    ensures
        forall|k: int|
            0 <= k < task_lines(tasks, t, fuel, d, p).len() ==> placed_well(
                #[trigger] task_lines(tasks, t, fuel, d, p)[k],
                tasks,
                d,
                p,
            ) && task_lines(tasks, t, fuel, d, p)[k].path[p.len() as int] == t.id
                && task_lines(tasks, t, fuel, d, p)[k].depth <= d + fuel,
    decreases fuel, 0nat, 0nat,
{
    let here = p.push(t.id);
    let s = task_lines(tasks, t, fuel, d, p);
    let i = choose|i: int| 0 <= i < tasks.len() && tasks[i] == t;
    if fuel > 0 {
        let c = children_of(tasks, Some(t.id));
        lemma_children_of(tasks, Some(t.id));
        lemma_kids_placed(tasks, c, (fuel - 1) as nat, d + 1, here);
    }
    assert forall|k: int| 0 <= k < s.len() implies placed_well(#[trigger] s[k], tasks, d, p)
        && s[k].path[p.len() as int] == t.id && s[k].depth <= d + fuel by {
        if k == 0 {
            let e = s[0];
            assert(e.path == here);
            assert(e.path.subrange(0, p.len() as int) =~= p);
            assert(e.path.drop_last() =~= p);
            assert forall|j: int| p.len() <= j < e.path.len() implies #[trigger] chain_link(
                tasks,
                e.path,
                j,
            ) by {
                assert(tasks[i].id == e.path[j]);
            }
        } else {
            let below = kids_lines(tasks, children_of(tasks, Some(t.id)), (fuel - 1) as nat, d + 1, here);
            assert(s[k] == below[k - 1]);
            lemma_step_out(below[k - 1], tasks, d, p, t);
        }
    }
}

proof fn lemma_kids_placed(tasks: Seq<Task>, kids: Seq<Task>, fuel: nat, d: nat, p: Seq<u32>)
    requires
        forall|i: int|
            0 <= i < kids.len() ==> tasks.contains(#[trigger] kids[i]) && parent_ok(kids[i], p),
    ensures
        forall|k: int|
            0 <= k < kids_lines(tasks, kids, fuel, d, p).len() ==> placed_well(
                #[trigger] kids_lines(tasks, kids, fuel, d, p)[k],
                tasks,
                d,
                p,
            ) && kids_lines(tasks, kids, fuel, d, p)[k].depth <= d + fuel && exists|i: int|
                0 <= i < kids.len() && kids_lines(tasks, kids, fuel, d, p)[k].path[p.len() as int]
                    == #[trigger] kids[i].id,
    decreases fuel, 1nat, kids.len(),
{
    if kids.len() > 0 {
        let front = kids.drop_last();
        let last = kids.last();
        assert forall|i: int| 0 <= i < front.len() implies tasks.contains(#[trigger] front[i])
            && parent_ok(front[i], p) by {
            assert(front[i] == kids[i]);
        }
        lemma_kids_placed(tasks, front, fuel, d, p);
        lemma_tree_placed(tasks, last, fuel, d, p);
        let a = kids_lines(tasks, front, fuel, d, p);
        let b = task_lines(tasks, last, fuel, d, p);
        assert forall|k: int| 0 <= k < (a + b).len() implies placed_well(
            #[trigger] (a + b)[k],
            tasks,
            d,
            p,
        ) && (a + b)[k].depth <= d + fuel && exists|i: int|
            0 <= i < kids.len() && (a + b)[k].path[p.len() as int] == #[trigger] kids[i].id by {
            if k < a.len() {
                assert((a + b)[k] == a[k]);
                let i = choose|i: int| 0 <= i < front.len() && a[k].path[p.len() as int] == #[trigger] front[i].id;
                assert(kids[i] == front[i]);
            } else {
                assert((a + b)[k] == b[k - a.len()]);
                assert(kids[kids.len() - 1] == last);
            }
        }
    }
}

proof fn lemma_tree_paths_distinct(tasks: Seq<Task>, t: Task, fuel: nat, d: nat, p: Seq<u32>)
    requires
        ids_unique(tasks),
        tasks.contains(t),
        parent_ok(t, p),
    ensures
        forall|k1: int, k2: int|
            0 <= k1 < task_lines(tasks, t, fuel, d, p).len() && 0 <= k2 < task_lines(
                tasks,
                t,
                fuel,
                d,
                p,
            ).len() && k1 != k2 ==> #[trigger] task_lines(tasks, t, fuel, d, p)[k1].path
                != #[trigger] task_lines(tasks, t, fuel, d, p)[k2].path,
    decreases fuel, 0nat, 0nat,
{
    let here = p.push(t.id);
    let s = task_lines(tasks, t, fuel, d, p);
    if fuel > 0 {
        let c = children_of(tasks, Some(t.id));
        lemma_children_of(tasks, Some(t.id));
        lemma_children_distinct(tasks, Some(t.id));
        lemma_kids_paths_distinct(tasks, c, (fuel - 1) as nat, d + 1, here);
        lemma_kids_placed(tasks, c, (fuel - 1) as nat, d + 1, here);
        let below = kids_lines(tasks, c, (fuel - 1) as nat, d + 1, here);
        assert forall|k1: int, k2: int|
            0 <= k1 < s.len() && 0 <= k2 < s.len() && k1 != k2 implies #[trigger] s[k1].path
            != #[trigger] s[k2].path by {
            if k1 == 0 {
                assert(placed_well(below[k2 - 1], tasks, d + 1, here));
                assert(s[k2] == below[k2 - 1]);
            } else if k2 == 0 {
                assert(placed_well(below[k1 - 1], tasks, d + 1, here));
                assert(s[k1] == below[k1 - 1]);
            } else {
                assert(s[k1] == below[k1 - 1]);
                assert(s[k2] == below[k2 - 1]);
            }
        }
    }
}

proof fn lemma_kids_paths_distinct(tasks: Seq<Task>, kids: Seq<Task>, fuel: nat, d: nat, p: Seq<u32>)
    requires
        ids_unique(tasks),
        ids_unique(kids),
        forall|i: int|
            0 <= i < kids.len() ==> tasks.contains(#[trigger] kids[i]) && parent_ok(kids[i], p),
    ensures
        forall|k1: int, k2: int|
            0 <= k1 < kids_lines(tasks, kids, fuel, d, p).len() && 0 <= k2 < kids_lines(
                tasks,
                kids,
                fuel,
                d,
                p,
            ).len() && k1 != k2 ==> #[trigger] kids_lines(tasks, kids, fuel, d, p)[k1].path
                != #[trigger] kids_lines(tasks, kids, fuel, d, p)[k2].path,
    decreases fuel, 1nat, kids.len(),
{
    if kids.len() > 0 {
        let front = kids.drop_last();
        let last = kids.last();
        assert forall|i: int| 0 <= i < front.len() implies tasks.contains(#[trigger] front[i])
            && parent_ok(front[i], p) by {
            assert(front[i] == kids[i]);
        }
        assert(ids_unique(front)) by {
            assert forall|i: int, j: int|
                0 <= i < front.len() && 0 <= j < front.len() && i != j implies #[trigger] front[i].id
                != #[trigger] front[j].id by {
                assert(front[i] == kids[i] && front[j] == kids[j]);
            }
        }
        lemma_kids_paths_distinct(tasks, front, fuel, d, p);
        lemma_tree_paths_distinct(tasks, last, fuel, d, p);
        lemma_kids_placed(tasks, front, fuel, d, p);
        lemma_tree_placed(tasks, last, fuel, d, p);
        let a = kids_lines(tasks, front, fuel, d, p);
        let b = task_lines(tasks, last, fuel, d, p);
        let s = a + b;
        assert forall|k1: int, k2: int|
            0 <= k1 < s.len() && 0 <= k2 < s.len() && k1 != k2 implies #[trigger] s[k1].path
            != #[trigger] s[k2].path by {
            if k1 < a.len() && k2 < a.len() {
                assert(s[k1] == a[k1] && s[k2] == a[k2]);
            } else if k1 >= a.len() && k2 >= a.len() {
                assert(s[k1] == b[k1 - a.len()] && s[k2] == b[k2 - a.len()]);
            } else {
                let (ka, kb) = if k1 < a.len() { (k1, k2) } else { (k2, k1) };
                assert(s[ka] == a[ka] && s[kb] == b[kb - a.len()]);
                let i = choose|i: int| 0 <= i < front.len() && a[ka].path[p.len() as int] == #[trigger] front[i].id;
                assert(kids[i] == front[i]);
                assert(kids[kids.len() - 1] == last);
                assert(kids[i].id != kids[kids.len() - 1].id);
            }
        }
    }
}

proof fn lemma_chain_unique(tasks: Seq<Task>, a: Seq<u32>, b: Seq<u32>)
    requires
        ids_unique(tasks),
        a.len() >= 1,
        b.len() >= 1,
        a.last() == b.last(),
        forall|j: int| 0 <= j < a.len() ==> #[trigger] chain_link(tasks, a, j),
        forall|j: int| 0 <= j < b.len() ==> #[trigger] chain_link(tasks, b, j),
    ensures
        a == b,
    decreases a.len(),
{
    assert(chain_link(tasks, a, a.len() - 1));
    assert(chain_link(tasks, b, b.len() - 1));
    let i = choose|i: int|
        0 <= i < tasks.len() && #[trigger] tasks[i].id == a[a.len() - 1] && parent_ok(
            tasks[i],
            a.subrange(0, a.len() - 1),
        );
    let i2 = choose|i: int|
        0 <= i < tasks.len() && #[trigger] tasks[i].id == b[b.len() - 1] && parent_ok(
            tasks[i],
            b.subrange(0, b.len() - 1),
        );
    assert(i == i2);
    let a1 = a.drop_last();
    let b1 = b.drop_last();
    assert(a.subrange(0, a.len() - 1) =~= a1);
    assert(b.subrange(0, b.len() - 1) =~= b1);
    if a1.len() == 0 || b1.len() == 0 {
        assert(a1.len() == 0 && b1.len() == 0);
        assert(a.len() == 1 && b.len() == 1);
        assert(a[0] == a.last() && b[0] == b.last());
        assert(a =~= b);
    } else {
        assert forall|j: int| 0 <= j < a1.len() implies #[trigger] chain_link(tasks, a1, j) by {
            assert(chain_link(tasks, a, j));
            assert(a1.subrange(0, j) =~= a.subrange(0, j));
            let m = choose|m: int|
                0 <= m < tasks.len() && #[trigger] tasks[m].id == a[j] && parent_ok(
                    tasks[m],
                    a.subrange(0, j),
                );
            assert(tasks[m].id == a1[j]);
        }
        assert forall|j: int| 0 <= j < b1.len() implies #[trigger] chain_link(tasks, b1, j) by {
            assert(chain_link(tasks, b, j));
            assert(b1.subrange(0, j) =~= b.subrange(0, j));
            let m = choose|m: int|
                0 <= m < tasks.len() && #[trigger] tasks[m].id == b[j] && parent_ok(
                    tasks[m],
                    b.subrange(0, j),
                );
            assert(tasks[m].id == b1[j]);
        }
        lemma_chain_unique(tasks, a1, b1);
        assert(a =~= a1.push(a.last()));
        assert(b =~= b1.push(b.last()));
    }
}

proof fn lemma_tree_closed(tasks: Seq<Task>, t: Task, fuel: nat, d: nat, p: Seq<u32>)
    ensures
        closed(task_lines(tasks, t, fuel, d, p), tasks, d + fuel),
    decreases fuel, 0nat, 0nat,
{
    let here = p.push(t.id);
    let s = task_lines(tasks, t, fuel, d, p);
    if fuel > 0 {
        let c = children_of(tasks, Some(t.id));
        let below = kids_lines(tasks, c, (fuel - 1) as nat, d + 1, here);
        lemma_kids_closed(tasks, c, (fuel - 1) as nat, d + 1, here);
        lemma_kids_heads(tasks, c, (fuel - 1) as nat, d + 1, here);
        assert forall|k: int, x: Task|
            0 <= k < s.len() && s[k].depth < d + fuel && #[trigger] children_of(
                tasks,
                Some(#[trigger] s[k].task.id),
            ).contains(x) implies has_line(s, x, s[k].depth + 1) by {
            if k == 0 {
                let i = choose|i: int| 0 <= i < c.len() && c[i] == x;
                assert(has_line(below, c[i], d + 1));
                let m = choose|m: int| 0 <= m < below.len() && #[trigger] below[m].task == c[i] && below[m].depth == d + 1;
                assert(s[m + 1] == below[m]);
            } else {
                assert(s[k] == below[k - 1]);
                assert(has_line(below, x, below[k - 1].depth + 1));
                let m = choose|m: int| 0 <= m < below.len() && #[trigger] below[m].task == x && below[m].depth == below[k - 1].depth + 1;
                assert(s[m + 1] == below[m]);
            }
        }
    }
}

proof fn lemma_kids_closed(tasks: Seq<Task>, kids: Seq<Task>, fuel: nat, d: nat, p: Seq<u32>)
    ensures
        closed(kids_lines(tasks, kids, fuel, d, p), tasks, d + fuel),
    decreases fuel, 1nat, kids.len(),
{
    if kids.len() > 0 {
        lemma_kids_closed(tasks, kids.drop_last(), fuel, d, p);
        lemma_tree_closed(tasks, kids.last(), fuel, d, p);
        let a = kids_lines(tasks, kids.drop_last(), fuel, d, p);
        let b = task_lines(tasks, kids.last(), fuel, d, p);
        let s = a + b;
        assert forall|k: int, x: Task|
            0 <= k < s.len() && s[k].depth < d + fuel && #[trigger] children_of(
                tasks,
                Some(#[trigger] s[k].task.id),
            ).contains(x) implies has_line(s, x, s[k].depth + 1) by {
            if k < a.len() {
                assert(s[k] == a[k]);
                assert(has_line(a, x, a[k].depth + 1));
                let m = choose|m: int| 0 <= m < a.len() && #[trigger] a[m].task == x && a[m].depth == a[k].depth + 1;
                assert(s[m] == a[m]);
            } else {
                let kb = k - a.len();
                assert(s[k] == b[kb]);
                assert(has_line(b, x, b[kb].depth + 1));
                let m = choose|m: int| 0 <= m < b.len() && #[trigger] b[m].task == x && b[m].depth == b[kb].depth + 1;
                assert(s[m + a.len()] == b[m]);
            }
        }
    }
}

proof fn lemma_kids_heads(tasks: Seq<Task>, kids: Seq<Task>, fuel: nat, d: nat, p: Seq<u32>)
    ensures
        forall|i: int| 0 <= i < kids.len() ==> has_line(kids_lines(tasks, kids, fuel, d, p), #[trigger] kids[i], d),
    decreases kids.len(),
{
    if kids.len() > 0 {
        lemma_kids_heads(tasks, kids.drop_last(), fuel, d, p);
        let a = kids_lines(tasks, kids.drop_last(), fuel, d, p);
        let b = task_lines(tasks, kids.last(), fuel, d, p);
        assert forall|i: int| 0 <= i < kids.len() implies has_line(a + b, #[trigger] kids[i], d) by {
            if i < kids.len() - 1 {
                assert(kids.drop_last()[i] == kids[i]);
                let m = choose|m: int| 0 <= m < a.len() && #[trigger] a[m].task == kids[i] && a[m].depth == d;
                assert((a + b)[m] == a[m]);
            } else {
                let here = p.push(kids.last().id);
                assert(b[0] == FlatEntry { task: kids.last(), depth: d, path: here });
                assert((a + b)[a.len() as int] == b[0]);
                assert((a + b)[a.len() as int].task == kids[i]);
            }
        }
    }
}

proof fn lemma_covered(tasks: Seq<Task>, t: Task, n: nat)
    requires
        tasks.contains(t),
        reaches_root(tasks, t, n),
        n <= depth_budget(tasks),
        closed(forest_lines(tasks), tasks, depth_budget(tasks)),
        forall|i: int|
            0 <= i < children_of(tasks, None).len() ==> has_line(
                forest_lines(tasks),
                #[trigger] children_of(tasks, None)[i],
                0,
            ),
    ensures
        exists|k: int|
            0 <= k < forest_lines(tasks).len() && #[trigger] forest_lines(tasks)[k].task == t
                && forest_lines(tasks)[k].depth <= n,
    decreases n,
{
    let s = forest_lines(tasks);
    lemma_children_include(tasks, t);
    match t.parent_id {
        None => {
            let roots = children_of(tasks, None);
            let i = choose|i: int| 0 <= i < roots.len() && roots[i] == t;
            assert(has_line(s, roots[i], 0));
        },
        Some(q) => {
            let j = choose|j: int|
                0 <= j < tasks.len() && #[trigger] tasks[j].id == q && reaches_root(
                    tasks,
                    tasks[j],
                    (n - 1) as nat,
                );
            lemma_covered(tasks, tasks[j], (n - 1) as nat);
            let k = choose|k: int| 0 <= k < s.len() && #[trigger] s[k].task == tasks[j] && s[k].depth <= n - 1;
            assert(children_of(tasks, Some(s[k].task.id)).contains(t));
            assert(has_line(s, t, s[k].depth + 1));
        },
    }
}

/// Where ids are unique and every task's chain of parents reaches a root,
/// the forest assembles: assembling places every task exactly once.
pub proof fn lemma_rooted_tasks_assemble(tasks: Seq<Task>)
    requires
        ids_unique(tasks),
        all_rooted(tasks),
    ensures
        assembles(tasks),
{
    let roots = children_of(tasks, None);
    let fuel = depth_budget(tasks);
    let s = forest_lines(tasks);
    lemma_children_of(tasks, None);
    lemma_children_distinct(tasks, None);
    lemma_kids_ids(tasks, roots, fuel, 0, Seq::empty());
    lemma_kids_placed(tasks, roots, fuel, 0, Seq::empty());
    lemma_kids_paths_distinct(tasks, roots, fuel, 0, Seq::empty());
    lemma_kids_closed(tasks, roots, fuel, 0, Seq::empty());
    lemma_kids_heads(tasks, roots, fuel, 0, Seq::empty());
    let fid = entry_ids(s);
    let tid = tasks.map_values(|t: Task| t.id);
    assert(fid.no_duplicates()) by {
        assert forall|k1: int, k2: int|
            0 <= k1 < fid.len() && 0 <= k2 < fid.len() && k1 != k2 implies fid[k1] != fid[k2] by {
            if fid[k1] == fid[k2] {
                assert(placed_well(s[k1], tasks, 0, Seq::empty()));
                assert(placed_well(s[k2], tasks, 0, Seq::empty()));
                lemma_chain_unique(tasks, s[k1].path, s[k2].path);
            }
        }
    }
    assert(tid.no_duplicates()) by {
        assert forall|i: int, j: int|
            0 <= i < tid.len() && 0 <= j < tid.len() && i != j implies tid[i] != tid[j] by {
            assert(tasks[i].id != tasks[j].id);
        }
    }
    assert(fid.to_set() =~= tid.to_set()) by {
        assert forall|x: u32| fid.to_set().contains(x) implies tid.to_set().contains(x) by {
            let k = choose|k: int| 0 <= k < fid.len() && fid[k] == x;
            assert(placed_well(s[k], tasks, 0, Seq::empty()));
            let j = choose|j: int| 0 <= j < tasks.len() && tasks[j] == s[k].task;
            assert(tid[j] == x);
        }
        assert forall|x: u32| tid.to_set().contains(x) implies fid.to_set().contains(x) by {
            let j = choose|j: int| 0 <= j < tid.len() && tid[j] == x;
            assert(reaches_root(tasks, tasks[j], fuel));
            lemma_covered(tasks, tasks[j], fuel);
            let k = choose|k: int| 0 <= k < s.len() && #[trigger] s[k].task == tasks[j] && s[k].depth <= fuel;
            assert(fid[k] == x);
        }
    }
    fid.unique_seq_to_set();
    tid.unique_seq_to_set();
}

proof fn lemma_chain_reaches_root(tasks: Seq<Task>, path: Seq<u32>, t: Task)
    requires
        ids_unique(tasks),
        tasks.contains(t),
        path.len() >= 1,
        path.last() == t.id,
        forall|j: int| 0 <= j < path.len() ==> #[trigger] chain_link(tasks, path, j),
    ensures
        reaches_root(tasks, t, (path.len() - 1) as nat),
    decreases path.len(),
{
    assert(chain_link(tasks, path, path.len() - 1));
    let i = choose|i: int|
        0 <= i < tasks.len() && #[trigger] tasks[i].id == path[path.len() - 1] && parent_ok(
            tasks[i],
            path.subrange(0, path.len() - 1),
        );
    let it = choose|it: int| 0 <= it < tasks.len() && tasks[it] == t;
    assert(tasks[it].id == tasks[i].id);
    assert(it == i);
    let rest = path.drop_last();
    assert(path.subrange(0, path.len() - 1) =~= rest);
    if rest.len() > 0 {
        assert(chain_link(tasks, path, rest.len() - 1));
        let j = choose|j: int|
            0 <= j < tasks.len() && #[trigger] tasks[j].id == path[rest.len() - 1] && parent_ok(
                tasks[j],
                path.subrange(0, rest.len() - 1),
            );
        assert forall|m: int| 0 <= m < rest.len() implies #[trigger] chain_link(tasks, rest, m) by {
            assert(chain_link(tasks, path, m));
            assert(rest.subrange(0, m) =~= path.subrange(0, m));
            let w = choose|w: int|
                0 <= w < tasks.len() && #[trigger] tasks[w].id == path[m] && parent_ok(
                    tasks[w],
                    path.subrange(0, m),
                );
            assert(tasks[w].id == rest[m]);
        }
        lemma_chain_reaches_root(tasks, rest, tasks[j]);
        assert(tasks[j].id == rest.last());
    }
}

proof fn lemma_reaches_root_more(tasks: Seq<Task>, t: Task, n: nat, m: nat)
    requires
        reaches_root(tasks, t, n),
        n <= m,
    ensures
        reaches_root(tasks, t, m),
    decreases n,
{
    if let Some(q) = t.parent_id {
        let j = choose|j: int|
            0 <= j < tasks.len() && #[trigger] tasks[j].id == q && reaches_root(
                tasks,
                tasks[j],
                (n - 1) as nat,
            );
        lemma_reaches_root_more(tasks, tasks[j], (n - 1) as nat, (m - 1) as nat);
    }
}

/// Where ids are unique, the forest assembles exactly when every task's
/// chain of parents reaches a root: assembling fails with `Cycle` exactly
/// where some chain loops, or breaks off at a parent that is not there.
pub proof fn lemma_assembles_iff_rooted(tasks: Seq<Task>)
    requires
        ids_unique(tasks),
    ensures
        assembles(tasks) <==> all_rooted(tasks),
{
    if all_rooted(tasks) {
        lemma_rooted_tasks_assemble(tasks);
    }
    if assembles(tasks) {
        let roots = children_of(tasks, None);
        let fuel = depth_budget(tasks);
        let s = forest_lines(tasks);
        lemma_children_of(tasks, None);
        lemma_kids_ids(tasks, roots, fuel, 0, Seq::empty());
        lemma_kids_placed(tasks, roots, fuel, 0, Seq::empty());
        let fid = entry_ids(s);
        let tid = tasks.map_values(|t: Task| t.id);
        assert(tid.no_duplicates()) by {
            assert forall|i: int, j: int|
                0 <= i < tid.len() && 0 <= j < tid.len() && i != j implies tid[i] != tid[j] by {
                assert(tasks[i].id != tasks[j].id);
            }
        }
        fid.unique_seq_to_set();
        tid.unique_seq_to_set();
        assert(fid.to_set().subset_of(tid.to_set())) by {
            assert forall|x: u32| fid.to_set().contains(x) implies tid.to_set().contains(x) by {
                let k = choose|k: int| 0 <= k < fid.len() && fid[k] == x;
                assert(placed_well(s[k], tasks, 0, Seq::empty()));
                let j = choose|j: int| 0 <= j < tasks.len() && tasks[j] == s[k].task;
                assert(tid[j] == x);
            }
        }
        vstd::set_lib::lemma_subset_equality(fid.to_set(), tid.to_set());
        assert forall|i: int| 0 <= i < tasks.len() implies reaches_root(
            tasks,
            #[trigger] tasks[i],
            fuel,
        ) by {
            assert(tid[i] == tasks[i].id);
            assert(tid.to_set().contains(tid[i]));
            let k = choose|k: int| 0 <= k < fid.len() && fid[k] == tid[i];
            let e = s[k];
            assert(placed_well(e, tasks, 0, Seq::empty()));
            let j = choose|j: int| 0 <= j < tasks.len() && tasks[j] == e.task;
            assert(tasks[j].id == tasks[i].id);
            assert(e.task == tasks[i]);
            lemma_chain_reaches_root(tasks, e.path, tasks[i]);
            lemma_reaches_root_more(tasks, tasks[i], (e.path.len() - 1) as nat, fuel);
        }
    }
}

/// In the flattened view of an assembled forest, each line's path runs from
/// a root down to the line's own task, one id per level. A root's line has
/// depth 0 and the path of its id alone; on every other line the id before
/// the last is the task's parent.
pub proof fn lemma_paths_follow_parents(tasks: Seq<Task>, forest: Seq<TaskWithKids>)
    requires
        forest_of(forest, tasks),
    ensures
        forall|k: int|
            0 <= k < flat_forest(forest).len() ==> {
                let e = #[trigger] flat_forest(forest)[k];
                &&& e.path.len() == e.depth + 1
                &&& e.path.last() == e.task.id
                &&& (e.task.parent_id is None <==> e.depth == 0)
                &&& e.depth == 0 ==> e.path == seq![e.task.id]
                &&& e.depth > 0 ==> e.task.parent_id == Some(e.path[e.path.len() - 2])
            },
{
    lemma_forest_lines(tasks, forest);
    lemma_children_of(tasks, None);
    lemma_kids_placed(tasks, children_of(tasks, None), depth_budget(tasks), 0, Seq::empty());
    let flat = flat_forest(forest);
    assert forall|k: int| 0 <= k < flat.len() implies {
        let e = #[trigger] flat[k];
        &&& e.path.len() == e.depth + 1
        &&& e.path.last() == e.task.id
        &&& (e.task.parent_id is None <==> e.depth == 0)
        &&& e.depth == 0 ==> e.path == seq![e.task.id]
        &&& e.depth > 0 ==> e.task.parent_id == Some(e.path[e.path.len() - 2])
    } by {
        let e = flat[k];
        assert(placed_well(e, tasks, 0, Seq::empty()));
        if e.depth == 0 {
            assert(e.path =~= seq![e.task.id]);
        } else {
            assert(e.path.drop_last().last() == e.path[e.path.len() - 2]);
        }
    }
}

/// Where ids are unique and every task's chain of parents reaches a root,
/// the forest assembles, and its flattened view holds exactly one line per
/// task: as many lines as tasks, each task on some line, no id on two lines.
pub proof fn lemma_flatten_complete(tasks: Seq<Task>, forest: Seq<TaskWithKids>)
    requires
        ids_unique(tasks),
        all_rooted(tasks),
        forest_of(forest, tasks),
    ensures
        assembles(tasks),
        flat_forest(forest).len() == tasks.len(),
        forall|i: int|
            0 <= i < tasks.len() ==> exists|k: int|
                0 <= k < flat_forest(forest).len() && flat_forest(forest)[k].task
                    == #[trigger] tasks[i],
        forall|k1: int, k2: int|
            0 <= k1 < flat_forest(forest).len() && 0 <= k2 < flat_forest(forest).len() && k1 != k2
                ==> #[trigger] flat_forest(forest)[k1].task.id != #[trigger] flat_forest(
                forest,
            )[k2].task.id,
{
    lemma_rooted_tasks_assemble(tasks);
    lemma_forest_lines(tasks, forest);
    let roots = children_of(tasks, None);
    let fuel = depth_budget(tasks);
    let flat = flat_forest(forest);
    lemma_children_of(tasks, None);
    lemma_kids_ids(tasks, roots, fuel, 0, Seq::empty());
    lemma_kids_placed(tasks, roots, fuel, 0, Seq::empty());
    let fid = entry_ids(flat);
    assert(fid.len() == flat.len());
    assert forall|i: int| 0 <= i < tasks.len() implies exists|k: int|
        0 <= k < flat.len() && flat[k].task == #[trigger] tasks[i] by {
        lemma_kids_closed(tasks, roots, fuel, 0, Seq::empty());
        lemma_kids_heads(tasks, roots, fuel, 0, Seq::empty());
        assert(reaches_root(tasks, tasks[i], fuel));
        lemma_covered(tasks, tasks[i], fuel);
    }
    assert forall|k1: int, k2: int|
        0 <= k1 < flat.len() && 0 <= k2 < flat.len() && k1 != k2 implies #[trigger] flat[k1].task.id
        != #[trigger] flat[k2].task.id by {
        assert(fid[k1] == flat[k1].task.id);
        assert(fid[k2] == flat[k2].task.id);
    }
}

/// Assembling is deterministic: any two forests assembled from the same
/// tasks, in the same order, flatten to the same view.
pub proof fn lemma_rebuild_is_stable(tasks: Seq<Task>, f1: Seq<TaskWithKids>, f2: Seq<TaskWithKids>)
    requires
        forest_of(f1, tasks),
        forest_of(f2, tasks),
    ensures
        flat_forest(f1) == flat_forest(f2),
{
    lemma_forest_lines(tasks, f1);
    lemma_forest_lines(tasks, f2);
}

/// Once the store holds no task with id `x`, no line of the rebuilt view has
/// `x` on its path: `x` and every task that hung below it are gone from it.
pub proof fn lemma_deleted_task_leaves_view(tasks: Seq<Task>, forest: Seq<TaskWithKids>, x: u32)
    requires
        forest_of(forest, tasks),
        forall|i: int| 0 <= i < tasks.len() ==> #[trigger] tasks[i].id != x,
    ensures
        forall|k: int|
            0 <= k < flat_forest(forest).len() ==> !(#[trigger] flat_forest(forest)[k]).path.contains(
                x,
            ),
{
    lemma_forest_lines(tasks, forest);
    lemma_children_of(tasks, None);
    lemma_kids_placed(tasks, children_of(tasks, None), depth_budget(tasks), 0, Seq::empty());
    let flat = flat_forest(forest);
    assert forall|k: int| 0 <= k < flat.len() implies !(#[trigger] flat[k]).path.contains(x) by {
        let e = flat[k];
        assert(placed_well(e, tasks, 0, Seq::empty()));
        if e.path.contains(x) {
            let j = choose|j: int| 0 <= j < e.path.len() && e.path[j] == x;
            assert(chain_link(tasks, e.path, j));
        }
    }
}

} // verus!
