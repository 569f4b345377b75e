//! The decisions of an AI behaviour that picks its next task. The tasks
//! themselves (whether one can run now, whether one may replace another) are
//! objects of the application; it scans its task list, asks them, and hands
//! each answer to a `TaskChoice`.
use vstd::prelude::*;

verus! {

/// The task chosen so far in a scan, and its priority.
pub struct TaskChoice {
    pub index: Option<usize>,
    pub priority: u8,
}

/// The choice as a mathematical value.
pub open spec fn choice_value(c: TaskChoice) -> (Option<nat>, u8) {
    (
        match c.index {
            Some(i) => Some(i as nat),
            None => None,
        },
        c.priority,
    )
}

/// One step of the scan: task `index`, if it can run, is chosen when its
/// priority is above the chosen one's, or when a task is chosen and the new
/// one may replace it.
pub open spec fn choice_step(c: (Option<nat>, u8), index: nat, can_execute: bool, priority: u8, replaces: bool) -> (
    Option<nat>,
    u8,
) {
    if can_execute && (priority > c.1 || (c.0 is Some && replaces)) {
        (Some(index), priority)
    } else {
        c
    }
}

/// What one answer does to the choice: a task that cannot run changes
/// nothing; a task that can run is chosen when its priority is above the
/// chosen one's, and, when a task is already chosen, whenever it may replace
/// that task, whatever its priority; otherwise nothing changes.
pub proof fn lemma_choice_step_cases(c: (Option<nat>, u8), index: nat, can_execute: bool, priority: u8, replaces: bool)
    ensures
        !can_execute ==> choice_step(c, index, can_execute, priority, replaces) == c,
        can_execute && priority > c.1 ==> choice_step(c, index, can_execute, priority, replaces) == (Some(index), priority),
        can_execute && c.0 is Some && replaces ==> choice_step(c, index, can_execute, priority, replaces) == (
            Some(index),
            priority,
        ),
        can_execute && priority <= c.1 && (c.0 is None || !replaces) ==> choice_step(
            c,
            index,
            can_execute,
            priority,
            replaces,
        ) == c,
{
}

/// Two runnable tasks of equal priority: the second is chosen exactly when
/// it may replace the first.
pub proof fn lemma_equal_priority_replacement(first: nat, second: nat, priority: u8, replaces: bool)
    requires
        priority > 0,
    ensures
        ({
            let c1 = choice_step((None, 0u8), first, true, priority, false);
            let c2 = choice_step(c1, second, true, priority, replaces);
            &&& c1 == (Some(first), priority)
            &&& replaces ==> c2 == (Some(second), priority)
            &&& !replaces ==> c2 == (Some(first), priority)
        }),
{
}

impl TaskChoice {
    /// Nothing chosen yet; the priority to beat is 0.
    pub fn new() -> (c: Self)
        ensures
            choice_value(c) == (None::<nat>, 0u8),
    {
        TaskChoice { index: None, priority: 0 }
    }

    /// Whether the scan must ask the task at hand if it may replace the
    /// chosen one: only when it can run, its priority is not above the
    /// chosen one's, and a task is chosen.
    pub fn asks_replacement(&self, can_execute: bool, priority: u8) -> (r: bool)
        ensures
            r == (can_execute && !(priority > self.priority) && self.index is Some),
    {
        can_execute && !(priority > self.priority) && self.index.is_some()
    }

    /// Takes the answers for task `index` into account.
    pub fn consider(&mut self, index: usize, can_execute: bool, priority: u8, replaces: bool)
        ensures
            choice_value(*final(self)) == choice_step(choice_value(*old(self)), index as nat, can_execute, priority, replaces),
            can_execute && priority > old(self).priority ==> final(self).index == Some(index) && final(self).priority
                == priority,
            can_execute && old(self).index is Some && replaces ==> final(self).index == Some(index)
                && final(self).priority == priority,
            !(can_execute && (priority > old(self).priority || (old(self).index is Some && replaces)))
                ==> final(self).index == old(self).index && final(self).priority == old(self).priority,
    {
        if can_execute && (priority > self.priority || (self.index.is_some() && replaces)) {
            self.index = Some(index);
            self.priority = priority;
        }
    }
}

/// What an update of an AI behaviour asks next: to search the task list
/// when no task is current, else to check the current task (is it still
/// valid, and if so, run it and learn whether it completed).
#[derive(PartialEq, Eq, Structural, Debug)]
pub enum UpdateStep {
    Search,
    Check(usize),
}

/// The current task of an AI behaviour and its priority.
pub struct CurrentTask {
    pub task: Option<usize>,
    pub priority: Option<u8>,
}

impl CurrentTask {
    /// No current task.
    pub fn new() -> (r: Self)
        ensures
            r.task is None,
            r.priority is None,
    {
        CurrentTask { task: None, priority: None }
    }

    /// The priority of the current task.
    pub fn get_current_priority(&self) -> (r: Option<u8>)
        ensures
            r == self.priority,
    {
        self.priority
    }

    /// Makes task `task`, of priority `priority`, the current one.
    pub fn set_current_task(&mut self, task: usize, priority: u8)
        ensures
            final(self).task == Some(task),
            final(self).priority == Some(priority),
    {
        self.task = Some(task);
        self.priority = Some(priority);
    }

    /// Leaves no current task.
    pub fn clear_current_task(&mut self)
        ensures
            final(self).task is None,
            final(self).priority is None,
    {
        self.task = None;
        self.priority = None;
    }

    /// The first step of an update.
    pub fn update_step(&self) -> (r: UpdateStep)
        ensures
            self.task is None ==> r == UpdateStep::Search,
            self.task matches Some(i) ==> r == UpdateStep::Check(i),
    {
        match self.task {
            Some(i) => UpdateStep::Check(i),
            None => UpdateStep::Search,
        }
    }

    /// Takes in the result of a search: a chosen task becomes the current
    /// one, and the update then runs again to check it. Returns whether it
    /// runs again.
    pub fn apply_search(&mut self, choice: &TaskChoice) -> (again: bool)
        ensures
            again == choice.index is Some,
            choice.index matches Some(i) ==> final(self).task == Some(i) && final(self).priority == Some(
                choice.priority,
            ),
            choice.index is None ==> final(self).task == old(self).task && final(self).priority == old(
                self,
            ).priority,
    {
        match choice.index {
            Some(i) => {
                self.set_current_task(i, choice.priority);
                true
            },
            None => false,
        }
    }

    /// Takes in the check of the current task: it is dropped when it is no
    /// longer valid or when running it completed it (a task that is no
    /// longer valid is not run, and `completed` is then `false`).
    pub fn apply_check(&mut self, still_valid: bool, completed: bool)
        ensures
            (!still_valid || completed) ==> final(self).task is None && final(self).priority is None,
            (still_valid && !completed) ==> final(self).task == old(self).task && final(self).priority == old(
                self,
            ).priority,
    {
        if !still_valid || completed {
            self.clear_current_task();
        }
    }
}

/// The choice after scanning `tasks` (each: can it run, its priority) when
/// no task may replace another.
pub open spec fn scan_without_replacement(tasks: Seq<(bool, u8)>) -> (Option<nat>, u8)
    decreases tasks.len(),
{
    if tasks.len() == 0 {
        (None, 0)
    } else {
        let last = tasks.last();
        choice_step(scan_without_replacement(tasks.drop_last()), (tasks.len() - 1) as nat, last.0, last.1, false)
    }
}

/// The highest priority of a task that can run, 0 when none can.
pub open spec fn highest_runnable(tasks: Seq<(bool, u8)>) -> u8
    decreases tasks.len(),
{
    if tasks.len() == 0 {
        0
    } else {
        let rest = highest_runnable(tasks.drop_last());
        let last = tasks.last();
        if last.0 && last.1 > rest { last.1 } else { rest }
    }
}

/// When no task may replace another, the scan picks the first task of the
/// highest priority among those that can run, and nothing when that
/// priority is 0 (a task of priority 0 is never picked).
pub proof fn lemma_scan_picks_first_highest(tasks: Seq<(bool, u8)>)
    ensures
        scan_without_replacement(tasks).1 == highest_runnable(tasks),
        highest_runnable(tasks) == 0 ==> scan_without_replacement(tasks).0 is None,
        highest_runnable(tasks) > 0 ==> ({
            let i = scan_without_replacement(tasks).0.unwrap();
            &&& scan_without_replacement(tasks).0 is Some
            &&& i < tasks.len()
            &&& tasks[i as int].0
            &&& tasks[i as int].1 == highest_runnable(tasks)
            &&& forall|j: int| 0 <= j < i ==> !(tasks[j].0 && tasks[j].1 == highest_runnable(tasks))
        }),
        forall|j: int| 0 <= j < tasks.len() && tasks[j].0 ==> tasks[j].1 <= highest_runnable(tasks),
    decreases tasks.len(),
{
    if tasks.len() > 0 {
        let rest = tasks.drop_last();
        lemma_scan_picks_first_highest(rest);
        assert forall|j: int| 0 <= j < rest.len() implies #[trigger] rest[j] == tasks[j] by {}
        let n = rest.len();
        let last = tasks.last();
        let hr = highest_runnable(rest);
        assert(last == tasks[n as int]);
        if last.0 && last.1 > hr {
            assert(scan_without_replacement(tasks) == (Some(n), last.1));
            assert forall|j: int| 0 <= j < n implies !(tasks[j].0 && tasks[j].1 == highest_runnable(tasks)) by {
                assert(tasks[j] == rest[j]);
            }
            assert forall|j: int| 0 <= j < tasks.len() && tasks[j].0 implies tasks[j].1 <= highest_runnable(tasks) by {
                if j < n {
                    assert(tasks[j] == rest[j]);
                }
            }
        } else {
            assert(scan_without_replacement(tasks) == scan_without_replacement(rest));
            assert(highest_runnable(tasks) == hr);
            assert forall|j: int| 0 <= j < tasks.len() && tasks[j].0 implies tasks[j].1 <= highest_runnable(tasks) by {
                if j < n {
                    assert(tasks[j] == rest[j]);
                }
            }
            if hr > 0 {
                let i = scan_without_replacement(rest).0.unwrap();
                assert(tasks[i as int] == rest[i as int]);
                assert forall|j: int| 0 <= j < i implies !(tasks[j].0 && tasks[j].1 == highest_runnable(tasks)) by {
                    assert(tasks[j] == rest[j]);
                }
            }
        }
    }
}

} // verus!
