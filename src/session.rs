use crate::navigation::{entries, spec_first, spec_next, spec_previous, NavigationService};
use vstd::prelude::*;

verus! {

/// A key press, as the main view reads it.
#[derive(Clone, Copy, Debug, PartialEq, Eq)]
pub enum Key {
    Up,
    Down,
    Enter,
    Tab,
    Char(char),
    Other,
}

/// What the main view is to do after a key press.
#[derive(Clone, Copy, Debug, PartialEq, Eq)]
pub enum MainAction {
    /// Nothing beyond redrawing.
    Nothing,
    /// Open the detail view of the selected task.
    ShowDetails(i32),
    /// Flip the completion of the selected task.
    ToggleCompletion(u32),
    /// Ask for a new root task.
    AddTask,
    /// Ask to delete the selected task.
    DeleteTask(i32),
    /// Say that no task is selected for deletion.
    NoTaskToDelete,
    /// Leave the program.
    Quit,
}

/// The selection of the main view (`-1`: none) and whether it keeps running.
pub struct TuiState {
    pub selected_id: i32,
    pub running: bool,
}

/// The selection that `nav` starts on: its first line, or none.
pub open spec fn initial_selection(nav: NavigationService) -> i32 {
    match spec_first(entries(nav.flat_tasks@)) {
        Some(id) => id,
        None => -1i32,
    }
}

/// The selection after moving up: unchanged with nothing selected.
pub open spec fn moved_up(selected: i32, nav: NavigationService) -> i32 {
    if selected == -1 {
        selected
    } else {
        match spec_previous(entries(nav.flat_tasks@), selected) {
            Some(id) => id,
            None => selected,
        }
    }
}

/// The selection after moving down: unchanged with nothing selected.
pub open spec fn moved_down(selected: i32, nav: NavigationService) -> i32 {
    if selected == -1 {
        selected
    } else {
        match spec_next(entries(nav.flat_tasks@), selected) {
            Some(id) => id,
            None => selected,
        }
    }
}

/// The action a key asks for, given the selection.
pub open spec fn action_for(key: Key, selected: i32) -> MainAction {
    match key {
        Key::Enter => if selected == -1 {
            MainAction::Nothing
        } else {
            MainAction::ShowDetails(selected)
        },
        Key::Tab => if selected == -1 {
            MainAction::Nothing
        } else {
            MainAction::ToggleCompletion(selected as u32)
        },
        Key::Char(c) => if c == 'a' {
            MainAction::AddTask
        } else if c == 'd' {
            if selected == -1 {
                MainAction::NoTaskToDelete
            } else {
                MainAction::DeleteTask(selected)
            }
        } else if c == 'q' {
            MainAction::Quit
        } else {
            MainAction::Nothing
        },
        _ => MainAction::Nothing,
    }
}

impl TuiState {
    /// A running view, on the first line of `nav` or on none.
    pub fn new(nav: &NavigationService) -> (r: TuiState)
        ensures
            r.selected_id == initial_selection(*nav),
            r.running,
    {
        let selected_id = match nav.get_first_id() {
            Some(id) => id,
            None => -1i32,
        };
        TuiState { selected_id, running: true }
    }

    /// Moves the selection one line up, if a task is selected.
    pub fn navigate_up(&mut self, nav: &NavigationService)
        ensures
            final(self).selected_id == moved_up(old(self).selected_id, *nav),
            final(self).running == old(self).running,
    {
        if self.selected_id == -1 {
            return ;
        }
        if let Some(id) = nav.get_previous_id(self.selected_id) {
            self.selected_id = id;
        }
    }

    /// Moves the selection one line down, if a task is selected.
    pub fn navigate_down(&mut self, nav: &NavigationService)
        ensures
            final(self).selected_id == moved_down(old(self).selected_id, *nav),
            final(self).running == old(self).running,
    {
        if self.selected_id == -1 {
            return ;
        }
        if let Some(id) = nav.get_next_id(self.selected_id) {
            self.selected_id = id;
        }
    }

    /// Applies one key press of the main view: arrows move the selection,
    /// `q` stops the view, and the rest is handed back as an action.
    pub fn handle_key(&mut self, key: Key, nav: &NavigationService) -> (r: MainAction)
        ensures
            key == Key::Up ==> final(self).selected_id == moved_up(old(self).selected_id, *nav),
            key == Key::Down ==> final(self).selected_id == moved_down(old(self).selected_id, *nav),
            key != Key::Up && key != Key::Down ==> final(self).selected_id == old(
                self,
            ).selected_id,
            r == action_for(key, old(self).selected_id),
            final(self).running == (old(self).running && r != MainAction::Quit),
    {
        match key {
            Key::Up => {
                self.navigate_up(nav);
                MainAction::Nothing
            },
            Key::Down => {
                self.navigate_down(nav);
                MainAction::Nothing
            },
            Key::Enter => {
                if self.selected_id == -1 {
                    MainAction::Nothing
                } else {
                    MainAction::ShowDetails(self.selected_id)
                }
            },
            Key::Tab => {
                if self.selected_id == -1 {
                    MainAction::Nothing
                } else {
                    MainAction::ToggleCompletion(self.selected_id as u32)
                }
            },
            Key::Char(c) => {
                if c == 'a' {
                    MainAction::AddTask
                } else if c == 'd' {
                    if self.selected_id == -1 {
                        MainAction::NoTaskToDelete
                    } else {
                        MainAction::DeleteTask(self.selected_id)
                    }
                } else if c == 'q' {
                    self.running = false;
                    MainAction::Quit
                } else {
                    MainAction::Nothing
                }
            },
            Key::Other => MainAction::Nothing,
        }
    }

    /// After a deletion, and a reload into `nav`, the selection falls back to
    /// the first line, or to none.
    pub fn after_delete(&mut self, nav: &NavigationService)
        ensures
            final(self).selected_id == initial_selection(*nav),
            final(self).running == old(self).running,
    {
        self.selected_id = match nav.get_first_id() {
            Some(id) => id,
            None => -1i32,
        };
    }

    /// After an insertion into a view that was empty, the new task is selected.
    pub fn after_add(&mut self, was_empty: bool, insert_id: i32)
        ensures
            final(self).selected_id == (if was_empty { insert_id } else { old(self).selected_id }),
            final(self).running == old(self).running,
    {
        if was_empty {
            self.selected_id = insert_id;
        }
    }
}

} // verus!
