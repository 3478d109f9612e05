use todolist::hierarchy::build_forest;
use todolist::navigation::NavigationService;
use todolist::session::{Key, MainAction, TuiState};
use todolist::task::{Task, TaskError, Timestamp};
use todolist::todolist::TodoList;

fn task(id: u32, parent_id: Option<u32>, completed: bool) -> Task {
    Task {
        id,
        parent_id,
        name: format!("t{}", id),
        completed,
        description: None,
        creation_date: Timestamp { year: 2023, month: 1, day: 2, hour: 3, minute: 4, second: 5 },
    }
}

fn sample() -> Vec<Task> {
    vec![task(1, None, false), task(2, Some(1), true), task(3, Some(1), false), task(4, Some(2), false)]
}

fn nav() -> NavigationService {
    NavigationService::new(&build_forest(&sample()).unwrap())
}

#[test]
fn list_selection_walks_and_wraps() {
    let mut list = TodoList::new(build_forest(&sample()).unwrap());
    assert_eq!(list.selected, -1);
    assert!(list.select_next());
    assert_eq!(list.selected, 1);
    assert!(list.select_next());
    assert_eq!(list.selected, 2);
    assert!(list.select_previous());
    assert_eq!(list.selected, 1);
    assert!(list.select_previous());
    assert_eq!(list.selected, 3);
    assert!(list.select_next());
    assert_eq!(list.selected, 1);
    let (t, depth) = list.get_selected_task().unwrap();
    assert_eq!((t.id, depth), (1, 0));
}

#[test]
fn empty_list_has_no_selection() {
    let mut list = TodoList::new(Vec::new());
    assert!(!list.select_next());
    assert_eq!(list.selected, -1);
    assert!(!list.select_previous());
    assert_eq!(list.selected, -1);
    assert!(list.get_selected_task().is_none());
}

#[test]
fn list_toggle_and_delete() {
    let mut list = TodoList::new(build_forest(&sample()).unwrap());
    let u = list.toggle_completed(2).unwrap();
    assert_eq!((u.id, u.completed), (2, Some(false)));
    assert_eq!(list.toggle_completed(9).err(), Some(TaskError::NotFound));
    assert_eq!(list.toggle_current_completed().err(), Some(TaskError::NotFound));
    list.select_next();
    assert_eq!(list.toggle_current_completed().unwrap().completed, Some(true));
    list.delete_task(1);
    assert_eq!(list.selected, -1);
    assert!(matches!(list.update_task(1, None, None, None, None), Ok(None)));
    assert_eq!(list.create_task(String::new(), None, None).err(), Some(TaskError::Validation));
}

#[test]
fn view_starts_on_first_task() {
    let n = nav();
    let s = TuiState::new(&n);
    assert_eq!(s.selected_id, 1);
    assert!(s.running);
    let empty = NavigationService::new(&Vec::new());
    assert_eq!(TuiState::new(&empty).selected_id, -1);
}

#[test]
fn arrows_move_the_selection() {
    let n = nav();
    let mut s = TuiState::new(&n);
    assert_eq!(s.handle_key(Key::Down, &n), MainAction::Nothing);
    assert_eq!(s.selected_id, 2);
    s.handle_key(Key::Down, &n);
    assert_eq!(s.selected_id, 4);
    s.handle_key(Key::Up, &n);
    s.handle_key(Key::Up, &n);
    assert_eq!(s.selected_id, 1);
    s.handle_key(Key::Up, &n);
    assert_eq!(s.selected_id, 3);
}

#[test]
fn keys_ask_for_actions() {
    let n = nav();
    let mut s = TuiState::new(&n);
    assert_eq!(s.handle_key(Key::Enter, &n), MainAction::ShowDetails(1));
    assert_eq!(s.handle_key(Key::Tab, &n), MainAction::ToggleCompletion(1));
    assert_eq!(s.handle_key(Key::Char('a'), &n), MainAction::AddTask);
    assert_eq!(s.handle_key(Key::Char('d'), &n), MainAction::DeleteTask(1));
    assert_eq!(s.handle_key(Key::Char('x'), &n), MainAction::Nothing);
    assert!(s.running);
    assert_eq!(s.handle_key(Key::Char('q'), &n), MainAction::Quit);
    assert!(!s.running);
}

#[test]
fn nothing_selected_means_no_target() {
    let empty = NavigationService::new(&Vec::new());
    let mut s = TuiState::new(&empty);
    assert_eq!(s.handle_key(Key::Down, &empty), MainAction::Nothing);
    assert_eq!(s.selected_id, -1);
    assert_eq!(s.handle_key(Key::Enter, &empty), MainAction::Nothing);
    assert_eq!(s.handle_key(Key::Char('d'), &empty), MainAction::NoTaskToDelete);
    s.after_add(true, 12);
    assert_eq!(s.selected_id, 12);
    s.after_add(false, 13);
    assert_eq!(s.selected_id, 12);
}

#[test]
fn deletion_falls_back_to_first() {
    let n = nav();
    let mut s = TuiState::new(&n);
    s.handle_key(Key::Down, &n);
    s.handle_key(Key::Down, &n);
    assert_eq!(s.selected_id, 4);
    let after = NavigationService::new(
        &build_forest(&vec![task(1, None, false), task(3, Some(1), false)]).unwrap(),
    );
    s.after_delete(&after);
    assert_eq!(s.selected_id, 1);
}

#[test]
fn terminal_flush_succeeds() {
    let mut r = todolist::ui::TerminalRenderer::new();
    assert!(r.flush().is_ok());
}

#[test]
fn refresh_keeps_the_selection() {
    let mut list = TodoList::new(build_forest(&sample()).unwrap());
    list.select_next();
    list.select_next();
    assert_eq!(list.selected, 2);
    list.refresh_data(build_forest(&vec![task(1, None, false), task(3, Some(1), false)]).unwrap());
    assert_eq!(list.selected, 2);
    assert!(list.get_selected_task().is_none());
    assert!(list.select_next());
    assert_eq!(list.selected, 1);
}
