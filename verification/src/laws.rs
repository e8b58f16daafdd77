//! What holds of every run of a manager: a sequence of states in which each
//! comes from the one before by starting a task or by one tick.
use crate::coroutine::{
    Coroutine, CoroutineCondition, CoroutineHandle, CoroutineManager, CoroutineQueue, Generator,
    GeneratorState,
};
use vstd::prelude::*;

verus! {

/// `after` comes from `before` by one call: a task is started, or a tick runs.
pub open spec fn advances<G: Generator>(
    before: CoroutineManager<G>,
    after: CoroutineManager<G>,
) -> bool {
    ||| exists|handle: CoroutineHandle, coroutine: G| #[trigger]
        CoroutineManager::started(before, after, handle, coroutine)
    ||| CoroutineManager::ticked(before, after)
}

/// Each state comes from the one before by one call.
pub open spec fn is_run<G: Generator>(states: Seq<CoroutineManager<G>>) -> bool {
    forall|i: int| 0 <= i < states.len() - 1 ==> advances(#[trigger] states[i], states[i + 1])
}

/// The identifier that the next task will get never goes down.
pub proof fn lemma_next_id_never_decreases<G: Generator>(
    states: Seq<CoroutineManager<G>>,
    i: int,
    j: int,
)
    requires
        is_run(states),
        0 <= i <= j < states.len(),
    ensures
        states[i].next_id() <= states[j].next_id(),
    decreases j - i,
{
    if i < j {
        lemma_next_id_never_decreases(states, i, j - 1);
    }
}

/// No two calls of `start_coroutine` on one manager return equal handles,
/// whatever calls lie between them.
pub proof fn lemma_handles_never_repeat<G: Generator>(
    states: Seq<CoroutineManager<G>>,
    i: int,
    j: int,
    first: CoroutineHandle,
    second: CoroutineHandle,
    first_coroutine: G,
    second_coroutine: G,
)
    requires
        is_run(states),
        0 <= i < j < states.len() - 1,
        CoroutineManager::started(states[i], states[i + 1], first, first_coroutine),
        CoroutineManager::started(states[j], states[j + 1], second, second_coroutine),
    ensures
        first@ < second@,
        first != second,
{
    lemma_next_id_never_decreases(states, i + 1, j);
}

/// A task that is started while a tick runs gets an identifier that no call of
/// `start_coroutine` on the manager returns, before the tick or after it.
pub proof fn lemma_handles_differ_from_those_of_a_tick<G: Generator>(
    states: Seq<CoroutineManager<G>>,
    i: int,
    j: int,
    handle: CoroutineHandle,
    coroutine: G,
    id: usize,
)
    requires
        is_run(states),
        0 <= i < states.len() - 1,
        0 <= j < states.len() - 1,
        i != j,
        CoroutineManager::started(states[i], states[i + 1], handle, coroutine),
        CoroutineManager::ticked(states[j], states[j + 1]),
        states[j + 1].pending().contains_key(id),
    ensures
        handle@ != id,
{
    if i < j {
        lemma_next_id_never_decreases(states, i + 1, j);
    } else {
        lemma_next_id_never_decreases(states, j + 1, i);
    }
}

/// No two calls of `start_coroutine` on one queue return equal handles,
/// whatever was started between them: the handles that tasks get while a tick
/// runs differ from each other as well.
pub proof fn lemma_handles_never_repeat_in_queue<G>(
    before_first: CoroutineQueue<G>,
    after_first: CoroutineQueue<G>,
    before_second: CoroutineQueue<G>,
    after_second: CoroutineQueue<G>,
    first: CoroutineHandle,
    second: CoroutineHandle,
    first_coroutine: G,
    second_coroutine: G,
)
    requires
        CoroutineQueue::started(before_first, after_first, first, first_coroutine),
        before_second.extends(after_first),
        CoroutineQueue::started(before_second, after_second, second, second_coroutine),
    ensures
        first@ < second@,
        first != second,
{
}

/// The two built-in conditions have one answer for each set of active tasks:
/// evaluating one of them again within a tick gives the same answer.
pub proof fn lemma_built_in_conditions_have_one_answer(
    condition: CoroutineCondition,
    active_ids: Set<usize>,
    first: bool,
    second: bool,
)
    requires
        !(condition is YieldInstruction),
        condition.allows(active_ids, first),
        condition.allows(active_ids, second),
    ensures
        first == second,
{
}

/// While a tick evaluates the tasks, the queue only grows: each of its states
/// comes from every earlier one by starting tasks.
pub proof fn lemma_queue_grows_during_tick<G: Generator>(
    before: CoroutineManager<G>,
    after: CoroutineManager<G>,
    order: Seq<usize>,
    queues: Seq<CoroutineQueue<G>>,
    i: int,
    j: int,
)
    requires
        CoroutineManager::evaluated_in_order(before, after, order, queues),
        0 <= i <= j <= order.len(),
    ensures
        queues[j].extends(queues[i]),
    decreases j - i,
{
    if i < j {
        lemma_queue_grows_during_tick(before, after, order, queues, i, j - 1);
        assert(before.active()[order[j - 1]].evaluated(
            before.active().dom().union(before.pending().dom()),
            after.active().get(order[j - 1]),
            queues[j - 1],
            queues[j - 1 + 1],
        ));
        CoroutineQueue::lemma_extends_transitive(queues[i], queues[j - 1], queues[j]);
    }
}

/// A tick evaluates each task that was active when it began, once. The queue
/// that the task was handed held no task from before the tick, and what the
/// task left in the queue is in the manager's queue when the tick ends: the
/// tasks that a resumption starts are pending afterwards, under the handles
/// that the resumption was given.
pub proof fn lemma_tick_evaluates_each_active_task<G: Generator>(
    before: CoroutineManager<G>,
    after: CoroutineManager<G>,
    id: usize,
)
    requires
        CoroutineManager::ticked(before, after),
        before.active().contains_key(id),
    ensures
        exists|queue_before: CoroutineQueue<G>, queue_after: CoroutineQueue<G>|
            {
                &&& #[trigger] before.active()[id].evaluated(
                    before.active().dom().union(before.pending().dom()),
                    after.active().get(id),
                    queue_before,
                    queue_after,
                )
                &&& before.next_id() <= queue_before.next_id()
                &&& forall|other: usize| #[trigger]
                    queue_before.queued().contains_key(other) ==> before.next_id() <= other
                &&& after.queue().extends(queue_after)
            },
{
    let (order, queues) = choose|order: Seq<usize>, queues: Seq<CoroutineQueue<G>>|
        CoroutineManager::evaluated_in_order(before, after, order, queues);
    let k = choose|k: int| 0 <= k < order.len() && order[k] == id;
    lemma_queue_grows_during_tick(before, after, order, queues, 0, k);
    lemma_queue_grows_during_tick(before, after, order, queues, k + 1, order.len() as int);
}

/// Every task that is pending when a tick ends was started by the resumption
/// of a task that was active when the tick began, and is pending as the
/// resumption left it.
pub proof fn lemma_pending_task_was_started_by_a_resumption<G: Generator>(
    before: CoroutineManager<G>,
    after: CoroutineManager<G>,
    id: usize,
)
    requires
        CoroutineManager::ticked(before, after),
        after.pending().contains_key(id),
    ensures
        exists|parent: usize, queue_before: CoroutineQueue<G>, queue_after: CoroutineQueue<G>|
            {
                &&& before.active().contains_key(parent)
                &&& #[trigger] before.active()[parent].resumed(
                    after.active().get(parent),
                    queue_before,
                    queue_after,
                )
                &&& queue_before.next_id() <= id < queue_after.next_id()
                &&& after.pending()[id] == queue_after.queued()[id]
            },
{
    let (order, queues) = choose|order: Seq<usize>, queues: Seq<CoroutineQueue<G>>|
        CoroutineManager::evaluated_in_order(before, after, order, queues);
    let k = lemma_some_resumption_gave_out(before, after, order, queues, id, order.len() as int);
    lemma_queue_grows_during_tick(before, after, order, queues, k + 1, order.len() as int);
    assert(before.active()[order[k]].evaluated(
        before.active().dom().union(before.pending().dom()),
        after.active().get(order[k]),
        queues[k],
        queues[k + 1],
    ));
}

/// An identifier that was given out before the queue reached its state
/// `queues[upto]` was given out by one of the evaluations before that state.
proof fn lemma_some_resumption_gave_out<G: Generator>(
    before: CoroutineManager<G>,
    after: CoroutineManager<G>,
    order: Seq<usize>,
    queues: Seq<CoroutineQueue<G>>,
    id: usize,
    upto: int,
) -> (k: int)
    requires
        CoroutineManager::evaluated_in_order(before, after, order, queues),
        0 <= upto <= order.len(),
        before.next_id() <= id < queues[upto].next_id(),
    ensures
        0 <= k < upto,
        queues[k].next_id() <= id < queues[k + 1].next_id(),
    decreases upto,
{
    if queues[upto - 1].next_id() <= id {
        upto - 1
    } else {
        lemma_some_resumption_gave_out(before, after, order, queues, id, upto - 1)
    }
}

/// No resumption of a computation of type `G` starts a task.
pub open spec fn starts_nothing<G: Generator>() -> bool {
    forall|
        before: G,
        queue_before: CoroutineQueue<G>,
        after: G,
        queue_after: CoroutineQueue<G>,
        state: GeneratorState,
    | #[trigger]
        G::resumes(before, queue_before, after, queue_after, state) ==> queue_after.next_id()
            == queue_before.next_id()
}

/// Where no resumption starts a task, a tick gives out no identifier, and no
/// task is pending when it ends.
pub proof fn lemma_tick_without_starts<G: Generator>(
    before: CoroutineManager<G>,
    after: CoroutineManager<G>,
)
    requires
        CoroutineManager::ticked(before, after),
        starts_nothing::<G>(),
    ensures
        after.next_id() == before.next_id(),
        after.pending().is_empty(),
{
    if after.next_id() != before.next_id() {
        lemma_pending_task_was_started_by_a_resumption(before, after, before.next_id());
    }
}

/// A task that is pending when a tick begins, whichever call started it, is
/// admitted by that tick without being resumed, and the tick after resumes
/// it, whatever else is active.
pub proof fn lemma_admission_takes_one_tick<G: Generator>(
    start: CoroutineManager<G>,
    admitted: CoroutineManager<G>,
    resumed: CoroutineManager<G>,
    id: usize,
)
    requires
        CoroutineManager::ticked(start, admitted),
        CoroutineManager::ticked(admitted, resumed),
        start.pending().contains_key(id),
    ensures
        admitted.active().get(id) == Some(Coroutine::admitted(start.pending()[id])),
        Coroutine::admitted(start.pending()[id]).was_resumed(resumed.active().get(id)),
{
    lemma_tick_evaluates_each_active_task(admitted, resumed, id);
}

/// A task that waits for another is not resumed in a tick in which the other
/// is active or admitted, even if the other runs to its end in that tick.
pub proof fn lemma_waiter_is_held_while_target_is_active<G: Generator>(
    before: CoroutineManager<G>,
    after: CoroutineManager<G>,
    waiter: usize,
    target: CoroutineHandle,
)
    requires
        CoroutineManager::ticked(before, after),
        before.active().contains_key(waiter),
        before.active()[waiter].condition == CoroutineCondition::WaitForCoroutine(target),
        before.active().contains_key(target@) || before.pending().contains_key(target@),
    ensures
        after.active().get(waiter) == Some(before.active()[waiter]),
{
    lemma_tick_evaluates_each_active_task(before, after, waiter);
}

/// A task that waits for another is resumed in the first tick that begins
/// without the other being active or pending.
pub proof fn lemma_waiter_is_resumed_once_target_is_gone<G: Generator>(
    before: CoroutineManager<G>,
    after: CoroutineManager<G>,
    waiter: usize,
    target: CoroutineHandle,
)
    requires
        CoroutineManager::ticked(before, after),
        before.active().contains_key(waiter),
        before.active()[waiter].condition == CoroutineCondition::WaitForCoroutine(target),
        !before.active().contains_key(target@),
        !before.pending().contains_key(target@),
    ensures
        before.active()[waiter].was_resumed(after.active().get(waiter)),
{
    lemma_tick_evaluates_each_active_task(before, after, waiter);
}

/// The end of a task shows one tick late: a task that waits for another is
/// not resumed in the tick in which the other runs to its end, and is resumed
/// in the next.
pub proof fn lemma_completion_shows_one_tick_later<G: Generator>(
    start: CoroutineManager<G>,
    completed: CoroutineManager<G>,
    resumed: CoroutineManager<G>,
    waiter: usize,
    target: CoroutineHandle,
)
    requires
        start.wf(),
        CoroutineManager::ticked(start, completed),
        CoroutineManager::ticked(completed, resumed),
        start.active().contains_key(waiter),
        start.active()[waiter].condition == CoroutineCondition::WaitForCoroutine(target),
        start.active().contains_key(target@),
        !completed.active().contains_key(target@),
    ensures
        completed.active().get(waiter) == Some(start.active()[waiter]),
        start.active()[waiter].was_resumed(resumed.active().get(waiter)),
{
    lemma_waiter_is_held_while_target_is_active(start, completed, waiter, target);
    // the identifiers given out during the tick are new, so the target is not pending either
    lemma_waiter_is_resumed_once_target_is_gone(completed, resumed, waiter, target);
}

/// A task that is started from inside a resumption is pending when the tick
/// ends, under an identifier that no task had before, and has not been
/// resumed: it is where a task is that the driver starts between two ticks.
pub proof fn lemma_started_during_tick_is_pending<G: Generator>(
    before: CoroutineManager<G>,
    after: CoroutineManager<G>,
    id: usize,
)
    requires
        before.wf(),
        CoroutineManager::ticked(before, after),
        after.pending().contains_key(id),
    ensures
        before.next_id() <= id < after.next_id(),
        !before.pending().contains_key(id),
        !before.active().contains_key(id),
        !after.active().contains_key(id),
{
}

/// Every condition of an active task holds: evaluated now, it cannot say no.
pub open spec fn all_conditions_hold<G: Generator>(state: CoroutineManager<G>) -> bool {
    forall|id: usize| #[trigger]
        state.active().contains_key(id) ==> !state.active()[id].condition.allows(
            state.active().dom().union(state.pending().dom()),
            false,
        )
}

/// `after` comes from `before` by a tick of the run loop in which every
/// condition holds and no task starts another: there were tasks, and the
/// tick resumed all that were active.
pub open spec fn full_tick<G: Generator>(
    before: CoroutineManager<G>,
    after: CoroutineManager<G>,
) -> bool {
    &&& before.wf()
    &&& !(before.active().is_empty() && before.pending().is_empty())
    &&& all_conditions_hold(before)
    &&& CoroutineManager::ticked(before, after)
    &&& after.next_id() == before.next_id()
}

/// `rank` bounds how often a computation can suspend itself: a resumption that
/// yields lowers it.
pub open spec fn ranks_resumptions<G: Generator>(rank: spec_fn(G) -> nat) -> bool {
    forall|
        before: G,
        queue_before: CoroutineQueue<G>,
        after: G,
        queue_after: CoroutineQueue<G>,
        condition: CoroutineCondition,
    | #[trigger]
        G::resumes(before, queue_before, after, queue_after, GeneratorState::Yielded(condition))
            ==> rank(after) < rank(before)
}

/// The ticks after which the task `id` is gone at the latest, if its
/// conditions hold: one for each time it can still suspend itself, one for
/// its end, and one for its admission where it is pending. Zero where there is
/// no such task.
pub open spec fn ticks_left<G: Generator>(
    state: CoroutineManager<G>,
    rank: spec_fn(G) -> nat,
    id: usize,
) -> nat {
    if state.active().contains_key(id) {
        rank(state.active()[id].generator) + 1
    } else if state.pending().contains_key(id) {
        rank(state.pending()[id]) + 2
    } else {
        0
    }
}

/// The most ticks that any task with an identifier under `below` has left.
pub open spec fn most_ticks_left<G: Generator>(
    state: CoroutineManager<G>,
    rank: spec_fn(G) -> nat,
    below: nat,
) -> nat
    decreases below,
{
    if below == 0 {
        0
    } else {
        let others = most_ticks_left(state, rank, (below - 1) as nat);
        let last = ticks_left(state, rank, (below - 1) as usize);
        if last > others {
            last
        } else {
            others
        }
    }
}

/// No task with an identifier under `below` has more ticks left than
/// `most_ticks_left` says.
pub proof fn lemma_most_ticks_left_is_most<G: Generator>(
    state: CoroutineManager<G>,
    rank: spec_fn(G) -> nat,
    below: nat,
    id: usize,
)
    requires
        id < below,
    ensures
        ticks_left(state, rank, id) <= most_ticks_left(state, rank, below),
    decreases below,
{
    if id < below - 1 {
        lemma_most_ticks_left_is_most(state, rank, (below - 1) as nat, id);
    }
}

/// The tasks of a manager are finitely many, so one number bounds the ticks
/// that each of them has left.
pub proof fn lemma_ticks_left_are_bounded<G: Generator>(
    state: CoroutineManager<G>,
    rank: spec_fn(G) -> nat,
)
    requires
        state.wf(),
    ensures
        forall|id: usize|
            ticks_left(state, rank, id) <= most_ticks_left(state, rank, state.next_id() as nat),
{
    assert forall|id: usize|
        ticks_left(state, rank, id) <= most_ticks_left(state, rank, state.next_id() as nat) by {
        if state.active().contains_key(id) || state.pending().contains_key(id) {
            lemma_most_ticks_left_is_most(state, rank, state.next_id() as nat, id);
        }
    }
}

/// A tick in which every condition holds and no task starts another brings
/// every task one tick nearer to its end.
pub proof fn lemma_full_tick_makes_progress<G: Generator>(
    before: CoroutineManager<G>,
    after: CoroutineManager<G>,
    rank: spec_fn(G) -> nat,
    id: usize,
)
    requires
        full_tick(before, after),
        ranks_resumptions(rank),
    ensures
        ticks_left(after, rank, id) == 0 || ticks_left(after, rank, id) < ticks_left(
            before,
            rank,
            id,
        ),
{
    if before.active().contains_key(id) {
        // a task that was active was resumed, as its condition could not say no
        lemma_tick_evaluates_each_active_task(before, after, id);
    }
}

/// The run loop ends: where the bodies are finite, no task starts another and
/// every condition holds whenever it is evaluated, a loop that calls `update`
/// while `has_coroutines` holds makes at most as many calls as the task that
/// is furthest from its end has ticks left.
pub proof fn lemma_run_loop_ends<G: Generator>(
    states: Seq<CoroutineManager<G>>,
    rank: spec_fn(G) -> nat,
    limit: nat,
)
    requires
        states.len() > 0,
        forall|i: int| 0 <= i < states.len() - 1 ==> full_tick(#[trigger] states[i], states[i + 1]),
        ranks_resumptions(rank),
        forall|id: usize| ticks_left(states[0], rank, id) <= limit,
    ensures
        states.len() - 1 <= limit,
    decreases states.len(),
{
    if states.len() > 1 {
        // the loop went on, so some task has a tick left, and the limit is not zero
        let some = choose|id: usize|
            states[0].active().contains_key(id) || states[0].pending().contains_key(id);
        assert(ticks_left(states[0], rank, some) > 0);
        // after the first tick every task is one tick nearer to its end
        let rest = states.subrange(1, states.len() as int);
        assert forall|id: usize| ticks_left(rest[0], rank, id) <= limit - 1 by {
            lemma_full_tick_makes_progress(states[0], states[1], rank, id);
        }
        assert forall|i: int| 0 <= i < rest.len() - 1 implies full_tick(
            #[trigger] rest[i],
            rest[i + 1],
        ) by {}
        lemma_run_loop_ends(rest, rank, (limit - 1) as nat);
    }
}

} // verus!
