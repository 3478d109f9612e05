use todolist::hierarchy::{build_forest, flatten_forest, FlatTask, TaskWithKids};
use todolist::navigation::NavigationService;
use todolist::task::{Task, TaskError, Timestamp};
use todolist::todolist::TodoList;

fn stamp() -> Timestamp {
    Timestamp { year: 2024, month: 3, day: 5, hour: 14, minute: 7, second: 9 }
}

fn task(id: u32, parent_id: Option<u32>, name: &str) -> Task {
    Task {
        id,
        parent_id,
        name: name.to_string(),
        completed: false,
        description: None,
        creation_date: stamp(),
    }
}

fn four_tasks() -> Vec<Task> {
    vec![
        task(1, None, "A"),
        task(2, Some(1), "B"),
        task(3, Some(1), "C"),
        task(4, Some(2), "D"),
    ]
}

fn ids(flat: &[FlatTask]) -> Vec<u32> {
    flat.iter().map(|e| e.task.id).collect()
}

fn depths(flat: &[FlatTask]) -> Vec<u32> {
    flat.iter().map(|e| e.depth).collect()
}

fn build_ok(tasks: &Vec<Task>) -> Vec<TaskWithKids> {
    match build_forest(tasks) {
        Ok(f) => f,
        Err(e) => panic!("forest did not assemble: {:?}", e),
    }
}

#[test]
fn flatten_the_tree() {
    let forest = build_ok(&four_tasks());
    let tdlist = TodoList::new(forest);
    let flat = tdlist.get_flat_tasks();
    assert_eq!(ids(&flat), vec![1, 2, 4, 3]);
}

#[test]
fn four_tasks_flatten_in_pre_order() {
    let forest = build_ok(&four_tasks());
    assert_eq!(forest.len(), 1);
    assert_eq!(forest[0].task.name, "A");
    assert_eq!(forest[0].subtasks.len(), 2);
    assert_eq!(forest[0].subtasks[0].subtasks[0].task.name, "D");
    let flat = flatten_forest(&forest);
    let names: Vec<&str> = flat.iter().map(|e| e.task.name.as_str()).collect();
    assert_eq!(names, vec!["A", "B", "D", "C"]);
    assert_eq!(depths(&flat), vec![0, 1, 2, 1]);
    assert_eq!(flat[0].parent_path, vec![1]);
    assert_eq!(flat[1].parent_path, vec![1, 2]);
    assert_eq!(flat[2].parent_path, vec![1, 2, 4]);
    assert_eq!(flat[3].parent_path, vec![1, 3]);
    let indices: Vec<usize> = flat.iter().map(|e| e.index_in_parent).collect();
    assert_eq!(indices, vec![0, 1, 2, 3]);
}

#[test]
fn four_tasks_navigation() {
    let forest = build_ok(&four_tasks());
    let nav = NavigationService::new(&forest);
    assert!(!nav.is_empty());
    assert_eq!(nav.get_first_id(), Some(1));
    assert_eq!(nav.get_next_id(1), Some(2));
    assert_eq!(nav.get_next_id(2), Some(4));
    assert_eq!(nav.get_next_id(3), Some(1));
    assert_eq!(nav.get_previous_id(2), Some(1));
    assert_eq!(nav.get_previous_id(1), Some(3));
    let (t, depth) = nav.get_task_with_depth(4).expect("task 4 is listed");
    assert_eq!(t.id, 4);
    assert_eq!(t.name, "D");
    assert_eq!(depth, 2);
    assert_eq!(nav.find_index_by_id(3), Some(3));
}

#[test]
fn empty_collection_gives_empty_view() {
    let forest = build_ok(&Vec::new());
    assert!(forest.is_empty());
    let nav = NavigationService::new(&forest);
    assert!(nav.is_empty());
    assert_eq!(nav.get_first_id(), None);
    assert_eq!(nav.get_next_id(1), None);
    assert_eq!(nav.get_previous_id(1), None);
    assert_eq!(nav.get_next_id(-1), None);
    assert!(nav.get_task_with_depth(1).is_none());
}

#[test]
fn stale_selection_falls_back_to_first() {
    let forest = build_ok(&four_tasks());
    let nav = NavigationService::new(&forest);
    assert_eq!(nav.get_next_id(99), Some(1));
    assert_eq!(nav.get_previous_id(99), Some(1));
    assert!(nav.get_task_with_depth(99).is_none());
    assert_eq!(nav.find_index_by_id(99), None);
}

#[test]
fn round_trip_from_every_line() {
    let forest = build_ok(&four_tasks());
    let nav = NavigationService::new(&forest);
    for id in [1, 2, 3, 4] {
        let n = nav.get_next_id(id).unwrap();
        assert_eq!(nav.get_previous_id(n), Some(id));
        let p = nav.get_previous_id(id).unwrap();
        assert_eq!(nav.get_next_id(p), Some(id));
    }
}

#[test]
fn children_listed_before_parents() {
    let tasks = vec![
        task(4, Some(2), "D"),
        task(3, Some(1), "C"),
        task(2, Some(1), "B"),
        task(1, None, "A"),
        task(5, None, "E"),
    ];
    let flat = flatten_forest(&build_ok(&tasks));
    assert_eq!(ids(&flat), vec![1, 3, 2, 4, 5]);
    assert_eq!(depths(&flat), vec![0, 1, 1, 2, 0]);
}

#[test]
fn every_task_once_and_paths_follow_parents() {
    let tasks = vec![
        task(10, None, "r1"),
        task(11, Some(10), "a"),
        task(12, Some(11), "b"),
        task(13, Some(12), "c"),
        task(20, None, "r2"),
        task(21, Some(20), "d"),
        task(14, Some(10), "e"),
    ];
    let flat = flatten_forest(&build_ok(&tasks));
    assert_eq!(flat.len(), tasks.len());
    for t in &tasks {
        assert_eq!(flat.iter().filter(|e| e.task.id == t.id).count(), 1);
    }
    for e in &flat {
        let path = &e.parent_path;
        assert_eq!(path.len(), e.depth as usize + 1);
        assert_eq!(*path.last().unwrap(), e.task.id);
        match e.task.parent_id {
            None => {
                assert_eq!(e.depth, 0);
                assert_eq!(path, &vec![e.task.id]);
            }
            Some(p) => assert_eq!(path[path.len() - 2], p),
        }
    }
}

#[test]
fn rebuilding_gives_the_same_view() {
    let tasks = four_tasks();
    let a = flatten_forest(&build_ok(&tasks));
    let b = flatten_forest(&build_ok(&tasks));
    assert_eq!(ids(&a), ids(&b));
    assert_eq!(depths(&a), depths(&b));
    for (x, y) in a.iter().zip(b.iter()) {
        assert_eq!(x.parent_path, y.parent_path);
        assert_eq!(x.index_in_parent, y.index_in_parent);
    }
}

#[test]
fn deleted_subtree_leaves_the_view() {
    let tasks = four_tasks();
    let before = flatten_forest(&build_ok(&tasks));
    let doomed: Vec<u32> = before
        .iter()
        .filter(|e| e.parent_path.contains(&2))
        .map(|e| e.task.id)
        .collect();
    assert_eq!(doomed, vec![2, 4]);
    let kept: Vec<Task> = tasks.into_iter().filter(|t| !doomed.contains(&t.id)).collect();
    let after = flatten_forest(&build_ok(&kept));
    assert_eq!(ids(&after), vec![1, 3]);
    assert!(after.iter().all(|e| !e.parent_path.contains(&2)));
}

#[test]
fn cycle_is_rejected() {
    let tasks = vec![task(1, None, "A"), task(2, Some(3), "B"), task(3, Some(2), "C")];
    assert_eq!(build_forest(&tasks).err(), Some(TaskError::Cycle));
}

#[test]
fn own_parent_is_rejected() {
    let tasks = vec![task(1, None, "A"), task(5, Some(5), "loop")];
    assert_eq!(build_forest(&tasks).err(), Some(TaskError::Cycle));
}

#[test]
fn repeated_id_is_rejected() {
    let tasks = vec![task(1, None, "A"), task(1, Some(1), "again")];
    assert_eq!(build_forest(&tasks).err(), Some(TaskError::Cycle));
}

#[test]
fn children_of_lists_in_input_order() {
    let tasks = four_tasks();
    let kids = todolist::hierarchy::child_tasks(&tasks, Some(1));
    let names: Vec<&str> = kids.iter().map(|t| t.name.as_str()).collect();
    assert_eq!(names, vec!["B", "C"]);
    let roots = todolist::hierarchy::child_tasks(&tasks, None);
    assert_eq!(roots.len(), 1);
}

#[test]
fn missing_parent_is_rejected() {
    let tasks = vec![task(1, None, "A"), task(2, Some(9), "orphan")];
    assert_eq!(build_forest(&tasks).err(), Some(TaskError::Cycle));
}

#[test]
fn tasks_are_equal_by_id() {
    let a = task(3, None, "one");
    let mut b = task(3, Some(1), "two");
    b.completed = true;
    assert!(a == b);
    assert!(a != task(4, None, "one"));
}
