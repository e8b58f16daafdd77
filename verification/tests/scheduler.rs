use coroutines::{
    CoroutineCondition, CoroutineHandle, CoroutineManager, CoroutineQueue, Generator,
    GeneratorState, WaitUntil, YieldInstruction,
};
use std::cell::{Cell, RefCell};
use std::rc::Rc;

/// A task body written as a closure that is called once per resumption.
struct Task(Box<dyn FnMut(&mut CoroutineQueue<Task>) -> GeneratorState>);

impl Task {
    fn new(body: impl FnMut(&mut CoroutineQueue<Task>) -> GeneratorState + 'static) -> Task {
        Task(Box::new(body))
    }
}

impl Generator for Task {
    fn resume(&mut self, queue: &mut CoroutineQueue<Self>) -> GeneratorState {
        (self.0)(queue)
    }
}

/// The ticks at which tasks were resumed, by task name.
#[derive(Clone)]
struct Log {
    tick: Rc<Cell<usize>>,
    entries: Rc<RefCell<Vec<(&'static str, usize)>>>,
}

impl Log {
    fn new() -> Log {
        Log { tick: Rc::new(Cell::new(0)), entries: Rc::new(RefCell::new(Vec::new())) }
    }

    fn record(&self, name: &'static str) {
        self.entries.borrow_mut().push((name, self.tick.get()));
    }

    fn ticks_of(&self, name: &'static str) -> Vec<usize> {
        self.entries.borrow().iter().filter(|e| e.0 == name).map(|e| e.1).collect()
    }

    /// Runs the tick with the given number.
    fn tick(&self, number: usize, manager: &mut CoroutineManager<Task>) {
        self.tick.set(number);
        manager.update();
    }
}

/// A task that is resumed `resumptions` times: it yields `WaitOneFrame` each
/// time but the last, at which it completes.
fn looping(name: &'static str, resumptions: usize, log: &Log) -> Task {
    let log = log.clone();
    let mut done: usize = 0;
    Task::new(move |_queue| {
        log.record(name);
        done += 1;
        if done < resumptions {
            GeneratorState::Yielded(CoroutineCondition::WaitOneFrame)
        } else {
            GeneratorState::Complete
        }
    })
}

/// A task that first waits for `target`, and is then resumed `resumptions`
/// times like `looping`. The resumption in which it yields its wait is logged
/// under the name "arm".
fn waiting_for(
    name: &'static str,
    target: CoroutineHandle,
    resumptions: usize,
    log: &Log,
) -> Task {
    let log = log.clone();
    let mut started = false;
    let mut done: usize = 0;
    Task::new(move |_queue| {
        if !started {
            started = true;
            log.record("arm");
            return GeneratorState::Yielded(CoroutineCondition::WaitForCoroutine(target));
        }
        log.record(name);
        done += 1;
        if done < resumptions {
            GeneratorState::Yielded(CoroutineCondition::WaitOneFrame)
        } else {
            GeneratorState::Complete
        }
    })
}

#[test]
fn no_tasks_means_no_ticks() {
    let mut manager: CoroutineManager<Task> = CoroutineManager::new();
    assert!(!manager.has_coroutines());
    let mut ticks = 0;
    while manager.has_coroutines() {
        manager.update();
        ticks += 1;
    }
    assert_eq!(ticks, 0);
}

#[test]
fn update_without_tasks_changes_nothing() {
    let mut manager: CoroutineManager<Task> = CoroutineManager::new();
    manager.update();
    manager.update();
    assert!(!manager.has_coroutines());
}

#[test]
fn has_coroutines_sees_pending_and_active_tasks() {
    let log = Log::new();
    let mut manager: CoroutineManager<Task> = CoroutineManager::new();
    assert!(!manager.has_coroutines());
    manager.start_coroutine(looping("a", 1, &log));
    // pending only
    assert!(manager.has_coroutines());
    log.tick(0, &mut manager);
    // active only
    assert!(manager.has_coroutines());
    log.tick(1, &mut manager);
    // completed and reaped
    assert!(!manager.has_coroutines());
    assert_eq!(log.ticks_of("a"), vec![1]);
}

#[test]
fn handles_are_pairwise_distinct() {
    let log = Log::new();
    let mut manager: CoroutineManager<Task> = CoroutineManager::new();
    let spawned: Rc<RefCell<Vec<CoroutineHandle>>> = Rc::new(RefCell::new(Vec::new()));
    let mut handles: Vec<CoroutineHandle> = Vec::new();
    handles.push(manager.start_coroutine(looping("a", 2, &log)));
    handles.push(manager.start_coroutine(looping("b", 1, &log)));
    let sink = spawned.clone();
    let child_log = log.clone();
    handles.push(manager.start_coroutine(Task::new(move |queue| {
        sink.borrow_mut().push(queue.start_coroutine(looping("child", 1, &child_log)));
        sink.borrow_mut().push(queue.start_coroutine(looping("child", 1, &child_log)));
        GeneratorState::Complete
    })));
    log.tick(0, &mut manager);
    handles.push(manager.start_coroutine(looping("c", 1, &log)));
    log.tick(1, &mut manager);
    handles.push(manager.start_coroutine(looping("d", 1, &log)));
    let mut tick = 2;
    while manager.has_coroutines() {
        log.tick(tick, &mut manager);
        tick += 1;
    }
    // a handle stays distinct from those of tasks that were reaped long ago
    handles.push(manager.start_coroutine(looping("e", 1, &log)));
    handles.extend(spawned.borrow().iter().copied());
    assert_eq!(handles.len(), 8);
    for i in 0..handles.len() {
        for j in 0..handles.len() {
            if i != j {
                assert_ne!(handles[i], handles[j]);
            } else {
                assert_eq!(handles[i], handles[j]);
            }
        }
    }
}

#[test]
fn handles_of_two_managers_are_numbered_alike() {
    let log = Log::new();
    let mut first: CoroutineManager<Task> = CoroutineManager::new();
    let mut second: CoroutineManager<Task> = CoroutineManager::new();
    let a = first.start_coroutine(looping("a", 1, &log));
    let b = second.start_coroutine(looping("b", 1, &log));
    let c = second.start_coroutine(looping("c", 1, &log));
    // identity is by value: both managers number from 1
    assert_eq!(a, b);
    assert_ne!(b, c);
}

#[test]
fn admitted_task_is_resumed_one_tick_later() {
    let log = Log::new();
    let mut manager: CoroutineManager<Task> = CoroutineManager::new();
    manager.start_coroutine(looping("a", 2, &log));
    log.tick(10, &mut manager);
    assert_eq!(log.ticks_of("a"), Vec::<usize>::new());
    log.tick(11, &mut manager);
    assert_eq!(log.ticks_of("a"), vec![11]);
    log.tick(12, &mut manager);
    assert_eq!(log.ticks_of("a"), vec![11, 12]);
    assert!(!manager.has_coroutines());
}

#[test]
fn wait_for_coroutine_resumes_one_tick_after_completion() {
    let log = Log::new();
    let mut manager: CoroutineManager<Task> = CoroutineManager::new();
    let a = manager.start_coroutine(looping("a", 2, &log));
    manager.start_coroutine(waiting_for("b", a, 1, &log));
    log.tick(0, &mut manager);
    log.tick(1, &mut manager);
    log.tick(2, &mut manager);
    // a completed in tick 2, and b saw it as active throughout that tick
    assert_eq!(log.ticks_of("a"), vec![1, 2]);
    assert_eq!(log.ticks_of("b"), Vec::<usize>::new());
    assert!(manager.has_coroutines());
    log.tick(3, &mut manager);
    assert_eq!(log.ticks_of("b"), vec![3]);
    assert!(!manager.has_coroutines());
}

#[test]
fn scenario_three_loops_then_dependent() {
    let log = Log::new();
    let mut manager: CoroutineManager<Task> = CoroutineManager::new();
    let handle_a = manager.start_coroutine(looping("a", 3, &log));
    manager.start_coroutine(waiting_for("b", handle_a, 2, &log));
    // tick 0 admits both tasks
    let mut tick = 0;
    while manager.has_coroutines() {
        log.tick(tick, &mut manager);
        tick += 1;
    }
    assert_eq!(log.ticks_of("a"), vec![1, 2, 3]);
    // b yields its wait in tick 1, and goes on only once a is gone
    assert_eq!(log.ticks_of("arm"), vec![1]);
    assert_eq!(log.ticks_of("b"), vec![4, 5]);
    assert_eq!(tick, 6);
}

#[test]
fn scenario_predicate_true_at_fifth_evaluation() {
    let log = Log::new();
    let mut manager: CoroutineManager<Task> = CoroutineManager::new();
    let evaluations: Rc<Cell<usize>> = Rc::new(Cell::new(0));
    let counter = evaluations.clone();
    let task_log = log.clone();
    let mut instruction = Some(WaitUntil::new(move || {
        counter.set(counter.get() + 1);
        counter.get() >= 5
    }));
    manager.start_coroutine(Task::new(move |_queue| match instruction.take() {
        Some(wait) => GeneratorState::Yielded(CoroutineCondition::YieldInstruction(wait)),
        None => {
            task_log.record("waiter");
            GeneratorState::Complete
        },
    }));
    log.tick(0, &mut manager);
    // the task yields the instruction in tick 1
    log.tick(1, &mut manager);
    assert_eq!(evaluations.get(), 0);
    for tick in 2..6 {
        log.tick(tick, &mut manager);
        assert_eq!(evaluations.get(), tick - 1);
        assert_eq!(log.ticks_of("waiter"), Vec::<usize>::new());
        assert!(manager.has_coroutines());
    }
    log.tick(6, &mut manager);
    assert_eq!(evaluations.get(), 5);
    assert_eq!(log.ticks_of("waiter"), vec![6]);
    assert!(!manager.has_coroutines());
}

#[test]
fn reentrant_start_waits_like_any_other() {
    let log = Log::new();
    let mut manager: CoroutineManager<Task> = CoroutineManager::new();
    let parent_log = log.clone();
    let mut spawned = false;
    manager.start_coroutine(Task::new(move |queue| {
        parent_log.record("parent");
        if !spawned {
            spawned = true;
            let child = queue.start_coroutine(looping("child", 2, &parent_log));
            GeneratorState::Yielded(CoroutineCondition::WaitForCoroutine(child))
        } else {
            GeneratorState::Complete
        }
    }));
    log.tick(0, &mut manager);
    // the parent starts the child during tick 1
    log.tick(1, &mut manager);
    // a task that the driver starts after tick 1 is in the same position
    manager.start_coroutine(looping("late", 2, &log));
    let mut tick = 2;
    while manager.has_coroutines() {
        log.tick(tick, &mut manager);
        tick += 1;
    }
    // both are admitted in tick 2 and resumed from tick 3 on
    assert_eq!(log.ticks_of("child"), vec![3, 4]);
    assert_eq!(log.ticks_of("late"), vec![3, 4]);
    // the parent waits for the child, which completes in tick 4
    assert_eq!(log.ticks_of("parent"), vec![1, 5]);
    assert_eq!(tick, 6);
}

#[test]
fn waiting_for_a_finished_task_does_not_block() {
    let log = Log::new();
    let mut manager: CoroutineManager<Task> = CoroutineManager::new();
    let a = manager.start_coroutine(looping("a", 1, &log));
    log.tick(0, &mut manager);
    log.tick(1, &mut manager);
    assert!(!manager.has_coroutines());
    manager.start_coroutine(waiting_for("b", a, 1, &log));
    log.tick(2, &mut manager);
    // b yields its condition in tick 3 and finds a gone in tick 4
    log.tick(3, &mut manager);
    log.tick(4, &mut manager);
    assert_eq!(log.ticks_of("b"), vec![4]);
    assert!(!manager.has_coroutines());
}

#[test]
fn waiting_for_oneself_never_ends() {
    let log = Log::new();
    let mut manager: CoroutineManager<Task> = CoroutineManager::new();
    let own: Rc<Cell<Option<CoroutineHandle>>> = Rc::new(Cell::new(None));
    let seen = own.clone();
    let task_log = log.clone();
    let handle = manager.start_coroutine(Task::new(move |_queue| {
        task_log.record("selfish");
        match seen.get() {
            Some(me) => GeneratorState::Yielded(CoroutineCondition::WaitForCoroutine(me)),
            None => GeneratorState::Complete,
        }
    }));
    own.set(Some(handle));
    for tick in 0..10 {
        log.tick(tick, &mut manager);
    }
    assert_eq!(log.ticks_of("selfish"), vec![1]);
    assert!(manager.has_coroutines());
}

/// A condition that holds at every second evaluation.
struct EverySecond {
    calls: Cell<usize>,
}

impl YieldInstruction for EverySecond {
    fn should_resume(&self) -> bool {
        self.calls.set(self.calls.get() + 1);
        self.calls.get() % 2 == 0
    }
}

#[test]
fn custom_instruction_may_flip_between_ticks() {
    let log = Log::new();
    let mut manager: CoroutineManager<Task> = CoroutineManager::new();
    let task_log = log.clone();
    let mut rounds: usize = 0;
    manager.start_coroutine(Task::new(move |_queue| {
        task_log.record("flip");
        rounds += 1;
        if rounds <= 3 {
            GeneratorState::Yielded(CoroutineCondition::YieldInstruction(Box::new(EverySecond {
                calls: Cell::new(0),
            })))
        } else {
            GeneratorState::Complete
        }
    }));
    let mut tick = 0;
    while manager.has_coroutines() {
        log.tick(tick, &mut manager);
        tick += 1;
    }
    // each instruction says no once, then yes
    assert_eq!(log.ticks_of("flip"), vec![1, 3, 5, 7]);
}

#[test]
fn wait_until_follows_its_predicate() {
    let flag: Rc<Cell<bool>> = Rc::new(Cell::new(false));
    let seen = flag.clone();
    let wait = WaitUntil::new(move || seen.get());
    assert!(!wait.should_resume());
    assert!(!wait.should_resume());
    flag.set(true);
    assert!(wait.should_resume());
    flag.set(false);
    assert!(!wait.should_resume());
}

#[test]
fn conditions_evaluate_as_documented() {
    let log = Log::new();
    let mut manager: CoroutineManager<Task> = CoroutineManager::new();
    let h1 = manager.start_coroutine(looping("a", 1, &log));
    let h2 = manager.start_coroutine(looping("b", 1, &log));
    let mut active = std::collections::HashSet::new();
    active.insert(1usize);
    assert!(CoroutineCondition::WaitOneFrame.should_resume(&active));
    // the first handle carries 1, the second 2
    assert!(!CoroutineCondition::WaitForCoroutine(h1).should_resume(&active));
    assert!(CoroutineCondition::WaitForCoroutine(h2).should_resume(&active));
    let yes = CoroutineCondition::YieldInstruction(WaitUntil::new(|| true));
    let no = CoroutineCondition::YieldInstruction(WaitUntil::new(|| false));
    assert!(yes.should_resume(&active));
    assert!(!no.should_resume(&active));
    // evaluating twice gives the same answer
    assert!(!CoroutineCondition::WaitForCoroutine(h1).should_resume(&active));
}

#[test]
fn run_loop_ends_for_finite_tasks() {
    let log = Log::new();
    let mut manager: CoroutineManager<Task> = CoroutineManager::new();
    let a = manager.start_coroutine(looping("a", 4, &log));
    let b = manager.start_coroutine(waiting_for("b", a, 3, &log));
    manager.start_coroutine(waiting_for("c", b, 1, &log));
    manager.start_coroutine(looping("d", 7, &log));
    let mut tick = 0;
    while manager.has_coroutines() {
        assert!(tick < 100);
        log.tick(tick, &mut manager);
        tick += 1;
    }
    assert_eq!(log.ticks_of("a"), vec![1, 2, 3, 4]);
    assert_eq!(log.ticks_of("b"), vec![5, 6, 7]);
    assert_eq!(log.ticks_of("c"), vec![8]);
    assert_eq!(log.ticks_of("d"), vec![1, 2, 3, 4, 5, 6, 7]);
    assert_eq!(tick, 9);
}

/// A handle with the given number, made by a manager of its own.
fn foreign_handle(number: usize, log: &Log) -> CoroutineHandle {
    let mut other: CoroutineManager<Task> = CoroutineManager::new();
    let mut handle = other.start_coroutine(looping("foreign", 1, log));
    for _ in 1..number {
        handle = other.start_coroutine(looping("foreign", 1, log));
    }
    handle
}

#[test]
fn waiting_for_a_handle_that_was_never_given_out_does_not_block() {
    let log = Log::new();
    let mut manager: CoroutineManager<Task> = CoroutineManager::new();
    let stranger = foreign_handle(7, &log);
    manager.start_coroutine(waiting_for("w", stranger, 1, &log));
    log.tick(0, &mut manager);
    log.tick(1, &mut manager);
    assert_eq!(log.ticks_of("w"), Vec::<usize>::new());
    log.tick(2, &mut manager);
    assert_eq!(log.ticks_of("w"), vec![2]);
    assert!(!manager.has_coroutines());
}

#[test]
fn waiter_is_held_by_a_task_admitted_in_the_same_tick() {
    let log = Log::new();
    let mut manager: CoroutineManager<Task> = CoroutineManager::new();
    // the second task of this manager will carry the same number
    let second = foreign_handle(2, &log);
    manager.start_coroutine(waiting_for("w", second, 1, &log));
    log.tick(0, &mut manager);
    log.tick(1, &mut manager);
    let target = manager.start_coroutine(looping("t", 1, &log));
    assert_eq!(target, second);
    // tick 2 admits the target before it evaluates the waiter
    log.tick(2, &mut manager);
    assert_eq!(log.ticks_of("w"), Vec::<usize>::new());
    // the target completes in tick 3, and the waiter sees that in tick 4
    log.tick(3, &mut manager);
    assert_eq!(log.ticks_of("t"), vec![3]);
    assert_eq!(log.ticks_of("w"), Vec::<usize>::new());
    log.tick(4, &mut manager);
    assert_eq!(log.ticks_of("w"), vec![4]);
    assert!(!manager.has_coroutines());
}

#[test]
fn a_fresh_manager_can_start_tasks() {
    let log = Log::new();
    let mut manager: CoroutineManager<Task> = CoroutineManager::new();
    assert!(manager.can_start());
    manager.start_coroutine(Task::new(|queue| {
        assert!(queue.can_start());
        GeneratorState::Complete
    }));
    assert!(manager.can_start());
    log.tick(0, &mut manager);
    log.tick(1, &mut manager);
    assert!(!manager.has_coroutines());
    assert!(manager.can_start());
}

#[test]
fn tasks_resumed_in_one_tick_see_each_others_writes() {
    let log = Log::new();
    let mut manager: CoroutineManager<Task> = CoroutineManager::new();
    let shared: Rc<Cell<usize>> = Rc::new(Cell::new(0));
    let seen: Rc<RefCell<Vec<usize>>> = Rc::new(RefCell::new(Vec::new()));
    for _ in 0..3 {
        let shared = shared.clone();
        let seen = seen.clone();
        manager.start_coroutine(Task::new(move |_queue| {
            seen.borrow_mut().push(shared.get());
            shared.set(shared.get() + 1);
            GeneratorState::Complete
        }));
    }
    log.tick(0, &mut manager);
    assert_eq!(shared.get(), 0);
    log.tick(1, &mut manager);
    // whatever the order, each task saw what the ones before it had written
    assert_eq!(*seen.borrow(), vec![0, 1, 2]);
    assert!(!manager.has_coroutines());
}
