use crate::hierarchy::{
    flatten_forest, forest_depth_fits, flat_forest, numbered, FlatEntry, FlatTask, TaskWithKids,
};
use crate::task::Task;
use vstd::prelude::*;

verus! {

/// What the lines of a flattened view say, in order.
pub open spec fn entries(flat: Seq<FlatTask>) -> Seq<FlatEntry> {
    flat.map_values(|e: FlatTask| e@)
}

/// `k` is the first line of `flat` whose task has selection id `id`.
pub open spec fn first_at(flat: Seq<FlatEntry>, id: i32, k: int) -> bool {
    &&& 0 <= k < flat.len()
    &&& flat[k].task.id as i32 == id
    &&& forall|j: int| 0 <= j < k ==> #[trigger] flat[j].task.id as i32 != id
}

/// Some line of `flat` has selection id `id`.
pub open spec fn listed(flat: Seq<FlatEntry>, id: i32) -> bool {
    exists|k: int| 0 <= k < flat.len() && #[trigger] flat[k].task.id as i32 == id
}

/// The line of `flat` that `id` selects, if any.
pub open spec fn position_of(flat: Seq<FlatEntry>, id: i32) -> int {
    choose|k: int| first_at(flat, id, k)
}

/// The selection after `id`: the next line, wrapping from the last line to
/// the first; the first line when `id` is not listed; nothing in an empty view.
pub open spec fn spec_next(flat: Seq<FlatEntry>, id: i32) -> Option<i32> {
    if flat.len() == 0 {
        None
    } else if listed(flat, id) {
        let k = position_of(flat, id);
        if k + 1 < flat.len() {
            Some(flat[k + 1].task.id as i32)
        } else {
            Some(flat[0].task.id as i32)
        }
    } else {
        Some(flat[0].task.id as i32)
    }
}

/// The selection before `id`: the line before, wrapping from the first line
/// to the last; the first line when `id` is not listed; nothing in an empty view.
pub open spec fn spec_previous(flat: Seq<FlatEntry>, id: i32) -> Option<i32> {
    if flat.len() == 0 {
        None
    } else if listed(flat, id) {
        let k = position_of(flat, id);
        if k > 0 {
            Some(flat[k - 1].task.id as i32)
        } else {
            Some(flat[flat.len() - 1].task.id as i32)
        }
    } else {
        Some(flat[0].task.id as i32)
    }
}

/// The first line's selection id, if there is a line.
pub open spec fn spec_first(flat: Seq<FlatEntry>) -> Option<i32> {
    if flat.len() == 0 {
        None
    } else {
        Some(flat[0].task.id as i32)
    }
}

/// The task and depth of the line that `id` selects.
pub open spec fn spec_lookup(flat: Seq<FlatEntry>, id: i32) -> Option<(Task, u32)> {
    if listed(flat, id) {
        let k = position_of(flat, id);
        Some((flat[k].task, flat[k].depth as u32))
    } else {
        None
    }
}

proof fn lemma_first_at_unique(flat: Seq<FlatEntry>, id: i32, k: int)
    requires
        first_at(flat, id, k),
    ensures
        listed(flat, id),
        position_of(flat, id) == k,
{
    assert(flat[k].task.id as i32 == id);
    let p = position_of(flat, id);
    assert(first_at(flat, id, p));
    if p < k {
        assert(flat[p].task.id as i32 != id);
    }
    if k < p {
        assert(flat[k].task.id as i32 != id);
    }
}

/// No two lines of `flat` share a selection id.
pub open spec fn distinct_selection(flat: Seq<FlatEntry>) -> bool {
    forall|k1: int, k2: int|
        0 <= k1 < flat.len() && 0 <= k2 < flat.len() && k1 != k2 ==> #[trigger] flat[k1].task.id as i32
            != #[trigger] flat[k2].task.id as i32
}

proof fn lemma_distinct_position(flat: Seq<FlatEntry>, k: int)
    requires
        distinct_selection(flat),
        0 <= k < flat.len(),
    ensures
        listed(flat, flat[k].task.id as i32),
        position_of(flat, flat[k].task.id as i32) == k,
{
    let id = flat[k].task.id as i32;
    assert forall|j: int| 0 <= j < k implies #[trigger] flat[j].task.id as i32 != id by {}
    lemma_first_at_unique(flat, id, k);
}

/// Over a view whose selection ids are distinct, stepping to the next line
/// and back, or to the line before and forward again, returns to where it
/// started, across the wrap between the last line and the first as well.
pub proof fn lemma_next_previous_round_trip(flat: Seq<FlatEntry>, id: i32)
    requires
        flat.len() > 0,
        distinct_selection(flat),
        listed(flat, id),
    ensures
        spec_next(flat, id) matches Some(n) && spec_previous(flat, n) == Some(id),
        spec_previous(flat, id) matches Some(q) && spec_next(flat, q) == Some(id),
{
    let k0 = choose|k: int| 0 <= k < flat.len() && #[trigger] flat[k].task.id as i32 == id;
    lemma_distinct_position(flat, k0);
    let m = if k0 + 1 < flat.len() { k0 + 1 } else { 0 };
    lemma_distinct_position(flat, m);
    let q = if k0 > 0 { k0 - 1 } else { flat.len() - 1 };
    lemma_distinct_position(flat, q);
}

/// Finds the first line of `flat` whose task has selection id `id`.
pub fn find_index(flat: &[FlatTask], id: i32) -> (r: Option<usize>)
    ensures
        r is None <==> !listed(entries(flat@), id),
        r matches Some(k) ==> first_at(entries(flat@), id, k as int) && position_of(entries(flat@), id) == k,
{
    let mut i: usize = 0;
    while i < flat.len()
        invariant
            i <= flat@.len(),
            forall|j: int| 0 <= j < i ==> #[trigger] flat@[j].task.id as i32 != id,
        decreases flat@.len() - i,
    {
        if flat[i].task.id as i32 == id {
            proof {
                lemma_first_at_unique(entries(flat@), id, i as int);
            }
            return Some(i);
        }
        i += 1;
    }
    None
}

/// The selection after `id` in `flat`.
pub fn next_id(flat: &[FlatTask], id: i32) -> (r: Option<i32>)
    ensures
        r == spec_next(entries(flat@), id),
{
    if flat.len() == 0 {
        return None;
    }
    match find_index(flat, id) {
        Some(k) => {
            if k + 1 < flat.len() {
                Some(flat[k + 1].task.id as i32)
            } else {
                Some(flat[0].task.id as i32)
            }
        },
        None => Some(flat[0].task.id as i32),
    }
}

/// The selection before `id` in `flat`.
pub fn previous_id(flat: &[FlatTask], id: i32) -> (r: Option<i32>)
    ensures
        r == spec_previous(entries(flat@), id),
{
    if flat.len() == 0 {
        return None;
    }
    match find_index(flat, id) {
        Some(k) => {
            if k > 0 {
                Some(flat[k - 1].task.id as i32)
            } else {
                Some(flat[flat.len() - 1].task.id as i32)
            }
        },
        None => Some(flat[0].task.id as i32),
    }
}

/// The selection of the first line of `flat`.
pub fn first_id(flat: &[FlatTask]) -> (r: Option<i32>)
    ensures
        r == spec_first(entries(flat@)),
{
    if flat.len() == 0 {
        None
    } else {
        Some(flat[0].task.id as i32)
    }
}

/// The task and depth of the line that `id` selects in `flat`.
pub fn lookup(flat: &[FlatTask], id: i32) -> (r: Option<(Task, u32)>)
    ensures
        r == spec_lookup(entries(flat@), id),
{
    match find_index(flat, id) {
        Some(k) => Some((flat[k].task.snapshot(), flat[k].depth)),
        None => None,
    }
}

/// A flattened view of the task forest, navigated by selection id.
pub struct NavigationService {
    pub flat_tasks: Vec<FlatTask>,
}

impl NavigationService {
    /// Flattens `tasks` into the view that navigation walks.
    pub fn new(tasks: &[TaskWithKids]) -> (r: NavigationService)
        requires
            forest_depth_fits(tasks@),
        ensures
            numbered(r.flat_tasks@),
            entries(r.flat_tasks@) == flat_forest(tasks@),
    {
        NavigationService { flat_tasks: flatten_forest(tasks) }
    }

    /// The view has no line.
    pub fn is_empty(&self) -> (r: bool)
        ensures
            r == (self.flat_tasks@.len() == 0),
    {
        self.flat_tasks.len() == 0
    }

    /// The selection after `current_id`; see `spec_next`.
    pub fn get_next_id(&self, current_id: i32) -> (r: Option<i32>)
        ensures
            r == spec_next(entries(self.flat_tasks@), current_id),
    {
        next_id(self.flat_tasks.as_slice(), current_id)
    }

    /// The selection before `current_id`; see `spec_previous`.
    pub fn get_previous_id(&self, current_id: i32) -> (r: Option<i32>)
        ensures
            r == spec_previous(entries(self.flat_tasks@), current_id),
    {
        previous_id(self.flat_tasks.as_slice(), current_id)
    }

    /// The task and depth of the line that `task_id` selects.
    pub fn get_task_with_depth(&self, task_id: i32) -> (r: Option<(Task, u32)>)
        ensures
            r == spec_lookup(entries(self.flat_tasks@), task_id),
    {
        lookup(self.flat_tasks.as_slice(), task_id)
    }

    /// The selection of the first line, if any.
    pub fn get_first_id(&self) -> (r: Option<i32>)
        ensures
            r == spec_first(entries(self.flat_tasks@)),
    {
        first_id(self.flat_tasks.as_slice())
    }

    /// The position of the first line that `task_id` selects.
    pub fn find_index_by_id(&self, task_id: i32) -> (r: Option<usize>)
        ensures
            r is None <==> !listed(entries(self.flat_tasks@), task_id),
            r matches Some(k) ==> first_at(entries(self.flat_tasks@), task_id, k as int),
    {
        find_index(self.flat_tasks.as_slice(), task_id)
    }
}

} // verus!
