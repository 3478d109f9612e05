use crate::hierarchy::{flat_forest, flatten_forest, forest_depth_fits, numbered, FlatTask, TaskWithKids};
use crate::mutation::{plan_create, plan_update};
use crate::navigation::{entries, lookup, next_id, previous_id, spec_lookup, spec_next, spec_previous};
use crate::task::{CreateTask, Task, TaskError, UpdateTask};
use vstd::prelude::*;

verus! {

/// The loaded task forest and the selected task's id, `-1` for none.
pub struct TodoList {
    pub tasks: Vec<TaskWithKids>,
    pub selected: i32,
}

impl TodoList {
    /// The forest can be flattened.
    pub open spec fn wf(&self) -> bool {
        forest_depth_fits(self.tasks@)
    }

    /// A list over `tasks` with nothing selected.
    pub fn new(tasks: Vec<TaskWithKids>) -> (r: TodoList)
        requires
            forest_depth_fits(tasks@),
        ensures
            r.wf(),
            r.tasks@ == tasks@,
            r.selected == -1,
    {
        TodoList { tasks, selected: -1 }
    }

    /// Replaces the forest with a freshly loaded one; the selection stays.
    pub fn refresh_data(&mut self, tasks: Vec<TaskWithKids>)
        requires
            forest_depth_fits(tasks@),
        ensures
            final(self).wf(),
            final(self).tasks@ == tasks@,
            final(self).selected == old(self).selected,
    {
        self.tasks = tasks;
    }

    pub fn get_flat_tasks(&self) -> (r: Vec<FlatTask>)
        requires
            self.wf(),
        ensures
            numbered(r@),
            entries(r@) == flat_forest(self.tasks@),
    {
        flatten_forest(self.tasks.as_slice())
    }

    /// Moves the selection one line up, wrapping to the last line; with a
    /// stale selection, to the first line. Nothing to select: `-1` and `false`.
    pub fn select_previous(&mut self) -> (r: bool)
        requires
            old(self).wf(),
        ensures
            final(self).tasks == old(self).tasks,
            match spec_previous(flat_forest(old(self).tasks@), old(self).selected) {
                Some(id) => r && final(self).selected == id,
                None => !r && final(self).selected == -1,
            },
    {
        let flat = self.get_flat_tasks();
        match previous_id(flat.as_slice(), self.selected) {
            Some(id) => {
                self.selected = id;
                true
            },
            None => {
                self.selected = -1;
                false
            },
        }
    }

    /// Moves the selection one line down, wrapping to the first line; with a
    /// stale selection, to the first line. Nothing to select: `-1` and `false`.
    pub fn select_next(&mut self) -> (r: bool)
        requires
            old(self).wf(),
        ensures
            final(self).tasks == old(self).tasks,
            match spec_next(flat_forest(old(self).tasks@), old(self).selected) {
                Some(id) => r && final(self).selected == id,
                None => !r && final(self).selected == -1,
            },
    {
        let flat = self.get_flat_tasks();
        match next_id(flat.as_slice(), self.selected) {
            Some(id) => {
                self.selected = id;
                true
            },
            None => {
                self.selected = -1;
                false
            },
        }
    }

    /// The selected task and its depth, if the selection is on a line.
    pub fn get_selected_task(&self) -> (r: Option<(Task, u32)>)
        requires
            self.wf(),
        ensures
            r == spec_lookup(flat_forest(self.tasks@), self.selected),
    {
        let flat = self.get_flat_tasks();
        lookup(flat.as_slice(), self.selected)
    }

    /// The update that flips the completion of task `id`, as the view shows it.
    pub fn toggle_completed(&self, id: u32) -> (r: Result<UpdateTask, TaskError>)
        requires
            self.wf(),
        ensures
            match spec_lookup(flat_forest(self.tasks@), id as i32) {
                Some((t, _)) => r matches Ok(u) && u.id == id && u.name is None && u.description is None
                    && u.parent_id is None && u.completed == Some(!t.completed),
                None => r == Err::<UpdateTask, TaskError>(TaskError::NotFound),
            },
    {
        let flat = self.get_flat_tasks();
        match lookup(flat.as_slice(), id as i32) {
            Some((t, _)) => Ok(
                UpdateTask {
                    id,
                    name: None,
                    parent_id: None,
                    description: None,
                    completed: Some(!t.completed),
                },
            ),
            None => Err(TaskError::NotFound),
        }
    }

    /// The update that flips the completion of the selected task.
    pub fn toggle_current_completed(&self) -> (r: Result<UpdateTask, TaskError>)
        requires
            self.wf(),
        ensures
            match spec_lookup(flat_forest(self.tasks@), self.selected as u32 as i32) {
                Some((t, _)) => r matches Ok(u) && u.id == self.selected as u32 && u.name is None
                    && u.description is None && u.parent_id is None && u.completed == Some(
                    !t.completed,
                ),
                None => r == Err::<UpdateTask, TaskError>(TaskError::NotFound),
            },
    {
        self.toggle_completed(self.selected as u32)
    }

    /// Checks a new task; see `plan_create`.
    pub fn create_task(&self, name: String, parent_id: Option<u32>, description: Option<String>) -> (r:
        Result<CreateTask, TaskError>)
        ensures
            name@.len() == 0 ==> r == Err::<CreateTask, TaskError>(TaskError::Validation),
            name@.len() > 0 ==> (r matches Ok(c) && c.name == name && c.parent_id == parent_id
                && c.description == description),
    {
        plan_create(name, parent_id, description)
    }

    /// Checks a change to task `id`; see `plan_update`.
    pub fn update_task(
        &self,
        id: u32,
        name: Option<String>,
        parent_id: Option<u32>,
        completed: Option<bool>,
        description: Option<String>,
    ) -> (r: Result<Option<UpdateTask>, TaskError>)
        ensures
            (name matches Some(n) && n@.len() == 0) ==> r == Err::<Option<UpdateTask>, TaskError>(
                TaskError::Validation,
            ),
            name is None && description is None && parent_id is None && completed is None ==> r
                == Ok::<Option<UpdateTask>, TaskError>(None),
            !(name matches Some(n) && n@.len() == 0) && (name is Some || description is Some
                || parent_id is Some || completed is Some) ==> (r matches Ok(Some(u)) && u.id == id
                && u.name == name && u.description == description && u.parent_id == parent_id
                && u.completed == completed),
    {
        plan_update(id, name, description, parent_id, completed)
    }

    /// Drops the selection ahead of deleting task `id` from the store.
    pub fn delete_task(&mut self, id: u32)
        ensures
            final(self).tasks == old(self).tasks,
            final(self).selected == -1,
    {
        self.selected = -1;
    }
}

} // verus!
