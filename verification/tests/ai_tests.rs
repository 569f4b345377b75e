use hyleus::ai::{CurrentTask, TaskChoice, UpdateStep};

fn scan(tasks: &[(bool, u8)]) -> Option<usize> {
    let mut c = TaskChoice::new();
    for (i, &(can, p)) in tasks.iter().enumerate() {
        assert!(!c.asks_replacement(can, p) || c.index.is_some());
        c.consider(i, can, p, false);
    }
    c.index
}

#[test]
fn picks_first_runnable_of_highest_priority() {
    assert_eq!(scan(&[(true, 1), (true, 3), (false, 9), (true, 3), (true, 2)]), Some(1));
    assert_eq!(scan(&[(false, 5), (true, 4)]), Some(1));
}

#[test]
fn priority_zero_is_never_picked() {
    assert_eq!(scan(&[(true, 0), (true, 0)]), None);
    assert_eq!(scan(&[]), None);
    assert_eq!(scan(&[(false, 7)]), None);
}

#[test]
fn a_replacing_task_takes_over_at_lower_priority() {
    let mut c = TaskChoice::new();
    c.consider(0, true, 5, false);
    assert!(c.asks_replacement(true, 2));
    assert!(!c.asks_replacement(true, 6));
    assert!(!c.asks_replacement(false, 2));
    c.consider(1, true, 2, true);
    assert_eq!((c.index, c.priority), (Some(1), 2));
    c.consider(2, false, 9, true);
    assert_eq!((c.index, c.priority), (Some(1), 2));
}

#[test]
fn update_steps_search_then_check() {
    let mut current = CurrentTask::new();
    assert_eq!(current.update_step(), UpdateStep::Search);
    let mut choice = TaskChoice::new();
    assert!(!current.apply_search(&choice));
    assert_eq!(current.update_step(), UpdateStep::Search);
    choice.consider(2, true, 5, false);
    assert!(current.apply_search(&choice));
    assert_eq!(current.update_step(), UpdateStep::Check(2));
    assert_eq!(current.get_current_priority(), Some(5));
    current.apply_check(true, false);
    assert_eq!(current.update_step(), UpdateStep::Check(2));
    current.apply_check(true, true);
    assert_eq!(current.update_step(), UpdateStep::Search);
    assert_eq!(current.get_current_priority(), None);
    current.set_current_task(1, 3);
    current.apply_check(false, false);
    assert_eq!(current.task, None);
}
