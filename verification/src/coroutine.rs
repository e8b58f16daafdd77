//! The scheduler: handles, resume conditions, the admission queue, the table
//! of active tasks and the manager that owns both.
use crate::yield_instruction::YieldInstruction;
use std::collections::HashMap;
use std::collections::HashSet;
use vstd::prelude::*;
use vstd::std_specs::iter::IteratorSpec;

verus! {

/// Identifies a task for as long as its manager lives. Handles are numbered
/// from 1 in the order in which the tasks were started, and no number is given
/// out twice.
#[derive(Clone, Copy, PartialEq, Eq, Structural, Hash, Debug)]
pub struct CoroutineHandle(usize);

impl View for CoroutineHandle {
    type V = usize;

    /// The identifier that the handle carries.
    closed spec fn view(&self) -> usize {
        self.0
    }
}

impl CoroutineHandle {
    /// Two handles are equal exactly when they carry the same identifier.
    pub proof fn lemma_equal_iff_same_id(a: CoroutineHandle, b: CoroutineHandle)
        ensures
            a == b <==> a@ == b@,
    {
    }
}

/// When a suspended task may run again.
pub enum CoroutineCondition {
    /// At the next tick.
    WaitOneFrame,
    /// Once the task behind the handle is no longer active.
    WaitForCoroutine(CoroutineHandle),
    /// When the instruction says so.
    YieldInstruction(Box<dyn YieldInstruction>),
}

impl CoroutineCondition {
    /// Whether evaluating the condition while the tasks in `active_ids` are
    /// active may give `answer`. The two built-in conditions allow exactly one
    /// answer; an instruction allows what it says it may answer.
    pub open spec fn allows(self, active_ids: Set<usize>, answer: bool) -> bool {
        match self {
            CoroutineCondition::WaitOneFrame => answer,
            CoroutineCondition::WaitForCoroutine(handle) => answer == !active_ids.contains(handle@),
            CoroutineCondition::YieldInstruction(instruction) => instruction.may_answer(answer),
        }
    }

    /// Evaluates the condition: whether a task that waits for it is to be
    /// resumed while the tasks in `active_ids` are active. A handle that is
    /// not among them counts as finished, whether its task was reaped, was
    /// never admitted or never existed.
    pub fn should_resume(&self, active_ids: &HashSet<usize>) -> (answer: bool)
        ensures
            self.allows(active_ids@, answer),
    {
        match self {
            CoroutineCondition::WaitOneFrame => true,
            CoroutineCondition::WaitForCoroutine(handle) => !active_ids.contains(&handle.0),
            CoroutineCondition::YieldInstruction(instruction) => instruction.should_resume(),
        }
    }
}

/// What a resumption hands back to the scheduler.
pub enum GeneratorState {
    /// The computation suspended itself again, to wait for the condition.
    Yielded(CoroutineCondition),
    /// The computation ran to its end.
    Complete,
}

/// A resumable computation: the body of a task.
///
/// Each call of `resume` runs the computation from where it last suspended
/// itself up to its next suspension point, with its state kept in between. The
/// computation may start further tasks through the queue it is handed; it has
/// no other access to the scheduler.
pub trait Generator: Sized {
    /// How one resumption may change the computation and the queue, and what
    /// it may hand back. An implementation that says nothing here allows every
    /// outcome.
    open spec fn resumes(
        before: Self,
        queue_before: CoroutineQueue<Self>,
        after: Self,
        queue_after: CoroutineQueue<Self>,
        state: GeneratorState,
    ) -> bool {
        true
    }

    /// Runs the computation up to its next suspension point or to its end.
    ///
    /// The tasks that the computation starts meanwhile are appended to `queue`,
    /// and the queue is otherwise left as it was. `start_coroutine` is the only
    /// way to change a queue that is open to an implementation, so one that
    /// calls nothing else on it keeps this promise.
    fn resume(&mut self, queue: &mut CoroutineQueue<Self>) -> (state: GeneratorState)
        requires
            old(queue).wf(),
        ensures
            final(queue).wf(),
            final(queue).extends(*old(queue)),
            Self::resumes(*old(self), *old(queue), *final(self), *final(queue), state),
    ;
}

/// An active task: a computation and the condition it waits for.
pub struct Coroutine<G> {
    pub condition: CoroutineCondition,
    pub generator: G,
}

impl<G: Generator> Coroutine<G> {
    /// The task as it is admitted: it waits for one frame.
    pub open spec fn admitted(generator: G) -> Self {
        Coroutine { condition: CoroutineCondition::WaitOneFrame, generator }
    }

    /// `after` is what one resumption may leave of the task, and `queue_after`
    /// what it may leave of `queue_before`: the task with the condition that
    /// it yielded, or nothing where it ran to its end, and the queue with the
    /// tasks that it started.
    pub open spec fn resumed(
        self,
        after: Option<Self>,
        queue_before: CoroutineQueue<G>,
        queue_after: CoroutineQueue<G>,
    ) -> bool {
        &&& queue_after.extends(queue_before)
        &&& match after {
            Some(task) => G::resumes(
                self.generator,
                queue_before,
                task.generator,
                queue_after,
                GeneratorState::Yielded(task.condition),
            ),
            None => exists|generator: G| #[trigger]
                G::resumes(
                    self.generator,
                    queue_before,
                    generator,
                    queue_after,
                    GeneratorState::Complete,
                ),
        }
    }

    /// `after` is what one resumption may leave of the task, whatever the
    /// queue was that it was handed.
    pub open spec fn was_resumed(self, after: Option<Self>) -> bool {
        exists|queue_before: CoroutineQueue<G>, queue_after: CoroutineQueue<G>| #[trigger]
            self.resumed(after, queue_before, queue_after)
    }

    /// `after` and `queue_after` are what one tick may leave of the task and
    /// of `queue_before` while the tasks in `active_ids` are active: both
    /// untouched where the condition may say no, and what a resumption leaves
    /// of them where the condition may say yes.
    pub open spec fn evaluated(
        self,
        active_ids: Set<usize>,
        after: Option<Self>,
        queue_before: CoroutineQueue<G>,
        queue_after: CoroutineQueue<G>,
    ) -> bool {
        ||| {
            &&& self.condition.allows(active_ids, false)
            &&& after == Some(self)
            &&& queue_after == queue_before
        }
        ||| {
            &&& self.condition.allows(active_ids, true)
            &&& self.resumed(after, queue_before, queue_after)
        }
    }

    /// Resumes the task if its condition holds while the tasks in `active_ids`
    /// are active, and stores the condition that it yields. Returns whether the
    /// task ran to its end.
    fn poll(&mut self, active_ids: &HashSet<usize>, queue: &mut CoroutineQueue<G>) -> (finished:
        bool)
        requires
            old(queue).wf(),
        ensures
            final(queue).wf(),
            final(queue).extends(*old(queue)),
            finished ==> old(self).condition.allows(active_ids@, true) && G::resumes(
                old(self).generator,
                *old(queue),
                final(self).generator,
                *final(queue),
                GeneratorState::Complete,
            ),
            !finished ==> old(self).evaluated(
                active_ids@,
                Some(*final(self)),
                *old(queue),
                *final(queue),
            ),
    {
        if self.condition.should_resume(active_ids) {
            match self.generator.resume(queue) {
                GeneratorState::Yielded(condition) => {
                    self.condition = condition;
                    false
                },
                GeneratorState::Complete => true,
            }
        } else {
            false
        }
    }
}

/// The tasks that were started and not yet admitted, and the counter that
/// numbers the handles.
pub struct CoroutineQueue<G> {
    queued_coroutines: HashMap<usize, G>,
    next_id: usize,
}

impl<G> CoroutineQueue<G> {
    /// The queued computations, by identifier.
    pub closed spec fn queued(&self) -> Map<usize, G> {
        self.queued_coroutines@
    }

    /// The identifier that the next task will get.
    pub closed spec fn next_id(&self) -> usize {
        self.next_id
    }

    /// Identifiers start at 1, and every queued task has one that was given out.
    pub open spec fn wf(&self) -> bool {
        &&& 1 <= self.next_id()
        &&& forall|id: usize| #[trigger] self.queued().contains_key(id) ==> 1 <= id < self.next_id()
    }

    /// `self` came from `before` by starting tasks, and in no other way: the
    /// tasks queued before are still queued, unchanged, and the others carry
    /// the identifiers given out since.
    pub open spec fn extends(&self, before: Self) -> bool {
        &&& before.next_id() <= self.next_id()
        &&& forall|id: usize| #[trigger]
            self.queued().contains_key(id) <==> before.queued().contains_key(id) || before.next_id()
                <= id < self.next_id()
        &&& forall|id: usize| #[trigger]
            before.queued().contains_key(id) ==> self.queued()[id] == before.queued()[id]
    }

    /// `after` is `before` with `coroutine` queued under `handle`, which carries
    /// the identifier that was next.
    pub open spec fn started(
        before: Self,
        after: Self,
        handle: CoroutineHandle,
        coroutine: G,
    ) -> bool {
        &&& handle@ == before.next_id()
        &&& after.next_id() == before.next_id() + 1
        &&& after.queued() == before.queued().insert(handle@, coroutine)
    }

    /// Starting tasks after starting tasks is starting tasks.
    pub proof fn lemma_extends_transitive(first: Self, second: Self, third: Self)
        requires
            second.extends(first),
            third.extends(second),
        ensures
            third.extends(first),
    {
        assert forall|id: usize| #[trigger]
            first.queued().contains_key(id) implies third.queued()[id] == first.queued()[id] by {
            assert(second.queued().contains_key(id));
        }
    }

    /// An empty queue whose first identifier is 1.
    fn new() -> (queue: Self)
        ensures
            queue.wf(),
            queue.queued() == Map::<usize, G>::empty(),
            queue.next_id() == 1,
    {
        Self { queued_coroutines: HashMap::new(), next_id: 1 }
    }

    /// Whether an identifier is left to give out, so that a task can be
    /// started.
    pub fn can_start(&self) -> (free: bool)
        ensures
            free == (self.next_id() < usize::MAX),
    {
        self.next_id < usize::MAX
    }

    /// Hands out the next identifier.
    fn get_next_id(&mut self) -> (id: usize)
        requires
            old(self).next_id() < usize::MAX,
        ensures
            id == old(self).next_id(),
            final(self).next_id() == id + 1,
            final(self).queued() == old(self).queued(),
    {
        let next_id: usize = self.next_id;
        self.next_id += 1;
        next_id
    }

    /// Queues `coroutine` for admission at the next tick and returns its handle.
    pub fn start_coroutine(&mut self, coroutine: G) -> (handle: CoroutineHandle)
        requires
            old(self).wf(),
            old(self).next_id() < usize::MAX,
        ensures
            final(self).wf(),
            final(self).extends(*old(self)),
            Self::started(*old(self), *final(self), handle, coroutine),
    {
        let id: usize = self.get_next_id();
        self.queued_coroutines.insert(id, coroutine);
        CoroutineHandle(id)
    }
}

/// The identifiers under which `map` holds a value, each once, in the order
/// in which the map hands them out.
fn keys_of<V>(map: &HashMap<usize, V>) -> (keys: Vec<usize>)
    ensures
        keys@.no_duplicates(),
        keys@.to_set() == map@.dom(),
{
    let mut keys: Vec<usize> = Vec::new();
    for key in iter: map.keys()
        invariant
            iter.seq() == map.keys().remaining(),
            keys@ == iter.seq().take(iter.index()).unref(),
    {
        keys.push(*key);
    }
    proof {
        assert(keys@ == map.keys().remaining().unref());
    }
    keys
}

/// The active tasks, and the set of their identifiers.
struct CurrentCoroutines<G> {
    current_coroutine_ids: HashSet<usize>,
    current_coroutines: HashMap<usize, Coroutine<G>>,
}

impl<G: Generator> CurrentCoroutines<G> {
    /// The active tasks, by identifier.
    spec fn coroutines(&self) -> Map<usize, Coroutine<G>> {
        self.current_coroutines@
    }

    /// The identifiers of the active tasks, as the set that conditions are
    /// evaluated against.
    spec fn ids(&self) -> Set<usize> {
        self.current_coroutine_ids@
    }

    /// The set of identifiers is the key set of the table.
    spec fn wf(&self) -> bool {
        self.ids() == self.coroutines().dom()
    }

    /// An empty table.
    fn new() -> (current: Self)
        ensures
            current.wf(),
            current.coroutines() == Map::<usize, Coroutine<G>>::empty(),
    {
        Self { current_coroutine_ids: HashSet::new(), current_coroutines: HashMap::new() }
    }

    /// The identifiers of the active tasks, each once.
    fn snapshot(&self) -> (ids: Vec<usize>)
        ensures
            ids@.no_duplicates(),
            ids@.to_set() == self.coroutines().dom(),
    {
        keys_of(&self.current_coroutines)
    }

    /// `after` is what is left of the table `before` once the tasks in `due`
    /// have been evaluated in that order, each once and against the whole of
    /// `before`, with `queues[k]` the queue before the evaluation of the task
    /// `due[k]` and `queues[k + 1]` the queue after it. Every other task is
    /// untouched, and no task has come in.
    spec fn polled(
        before: Map<usize, Coroutine<G>>,
        due: Seq<usize>,
        after: Map<usize, Coroutine<G>>,
        queues: Seq<CoroutineQueue<G>>,
    ) -> bool {
        &&& after.dom().subset_of(before.dom())
        &&& forall|id: usize| #[trigger]
            before.contains_key(id) && !due.contains(id) ==> after.get(id) == Some(before[id])
        &&& queues.len() == due.len() + 1
        &&& forall|k: int|
            0 <= k < due.len() ==> before[#[trigger] due[k]].evaluated(
                before.dom(),
                after.get(due[k]),
                queues[k],
                queues[k + 1],
            )
    }

    /// Evaluates each task in `due` once and resumes it if its condition
    /// holds, then removes the tasks that ran to their end. A task that ends
    /// stays visible to the conditions of the others until all of `due` has
    /// been evaluated. Returns the queue as it was before and after each
    /// evaluation.
    fn update(&mut self, due: &Vec<usize>, queue: &mut CoroutineQueue<G>) -> (queues: Ghost<
        Seq<CoroutineQueue<G>>,
    >)
        requires
            old(self).wf(),
            old(queue).wf(),
            due@.no_duplicates(),
            forall|i: int| 0 <= i < due@.len() ==> old(self).coroutines().contains_key(due@[i]),
        ensures
            final(self).wf(),
            final(queue).wf(),
            final(queue).extends(*old(queue)),
            Self::polled(old(self).coroutines(), due@, final(self).coroutines(), queues@),
            queues@[0] == *old(queue),
            queues@[due@.len() as int] == *final(queue),
    {
        let ghost before = self.coroutines();
        let ghost mut queues: Seq<CoroutineQueue<G>> = seq![*queue];
        let mut finished_coroutines: Vec<usize> = Vec::new();
        let mut i: usize = 0;
        while i < due.len()
            invariant
                0 <= i <= due.len(),
                due@.no_duplicates(),
                forall|k: int| 0 <= k < due@.len() ==> before.contains_key(due@[k]),
                before == old(self).coroutines(),
                self.ids() == before.dom(),
                self.coroutines().dom() == before.dom(),
                queue.wf(),
                queue.extends(*old(queue)),
                queues.len() == i + 1,
                queues[0] == *old(queue),
                queues[i as int] == *queue,
                finished_coroutines@.to_set().subset_of(due@.take(i as int).to_set()),
                forall|id: usize| #[trigger]
                    before.contains_key(id) && !due@.take(i as int).to_set().contains(id)
                        ==> self.coroutines()[id] == before[id],
                forall|k: int|
                    0 <= k < i ==> if finished_coroutines@.to_set().contains(#[trigger] due@[k]) {
                        &&& before[due@[k]].condition.allows(before.dom(), true)
                        &&& queues[k + 1].extends(queues[k])
                        &&& G::resumes(
                            before[due@[k]].generator,
                            queues[k],
                            self.coroutines()[due@[k]].generator,
                            queues[k + 1],
                            GeneratorState::Complete,
                        )
                    } else {
                        before[due@[k]].evaluated(
                            before.dom(),
                            Some(self.coroutines()[due@[k]]),
                            queues[k],
                            queues[k + 1],
                        )
                    },
            decreases due.len() - i,
        {
            let id: usize = due[i];
            let ghost earlier_queue = *queue;
            let ghost earlier_queues = queues;
            proof {
                due@.lemma_take_succ_push(i as int);
                due@.take(i as int).lemma_push_to_set_commute(id);
                finished_coroutines@.lemma_push_to_set_commute(id);
            }
            let finished: bool = match self.current_coroutines.entry(id) {
                std::collections::hash_map::Entry::Occupied(entry) => {
                    let coroutine = entry.into_mut();
                    coroutine.poll(&self.current_coroutine_ids, queue)
                },
                std::collections::hash_map::Entry::Vacant(_) => false,
            };
            if finished {
                finished_coroutines.push(id);
            }
            proof {
                CoroutineQueue::lemma_extends_transitive(*old(queue), earlier_queue, *queue);
                queues = queues.push(*queue);
                assert forall|k: int| 0 <= k < i implies queues[k] == earlier_queues[k] && queues[k
                    + 1] == earlier_queues[k + 1] && due@[k] != id by {}
            }
            i = i + 1;
        }
        let ghost resumed = self.coroutines();
        let mut j: usize = 0;
        while j < finished_coroutines.len()
            invariant
                0 <= j <= finished_coroutines.len(),
                self.wf(),
                self.coroutines() == resumed.remove_keys(
                    finished_coroutines@.take(j as int).to_set(),
                ),
            decreases finished_coroutines.len() - j,
        {
            let id: usize = finished_coroutines[j];
            proof {
                finished_coroutines@.lemma_take_succ_push(j as int);
                finished_coroutines@.take(j as int).lemma_push_to_set_commute(id);
            }
            self.current_coroutine_ids.remove(&id);
            self.current_coroutines.remove(&id);
            j = j + 1;
        }
        proof {
            assert(finished_coroutines@.take(finished_coroutines.len() as int)
                == finished_coroutines@);
            let after = self.coroutines();
            assert forall|k: int| 0 <= k < due@.len() implies before[#[trigger] due@[k]].evaluated(
                before.dom(),
                after.get(due@[k]),
                queues[k],
                queues[k + 1],
            ) by {}
        }
        Ghost(queues)
    }

    /// Moves every queued task into the table, where it waits for one frame.
    fn drain_queue(&mut self, queue: &mut CoroutineQueue<G>)
        requires
            old(self).wf(),
            old(queue).wf(),
        ensures
            final(self).wf(),
            final(self).coroutines() == old(self).coroutines().union_prefer_right(
                old(queue).queued().map_values(|generator: G| Coroutine::admitted(generator)),
            ),
            final(queue).wf(),
            final(queue).queued() == Map::<usize, G>::empty(),
            final(queue).next_id() == old(queue).next_id(),
    {
        let ids: Vec<usize> = keys_of(&queue.queued_coroutines);
        let ghost admitted = old(queue).queued().map_values(
            |generator: G| Coroutine::admitted(generator),
        );
        let mut i: usize = 0;
        while i < ids.len()
            invariant
                0 <= i <= ids.len(),
                ids@.no_duplicates(),
                ids@.to_set() == old(queue).queued().dom(),
                admitted == old(queue).queued().map_values(
                    |generator: G| Coroutine::admitted(generator),
                ),
                queue.next_id() == old(queue).next_id(),
                queue.queued() == old(queue).queued().remove_keys(ids@.take(i as int).to_set()),
                self.wf(),
                self.coroutines() == old(self).coroutines().union_prefer_right(
                    admitted.restrict(ids@.take(i as int).to_set()),
                ),
            decreases ids.len() - i,
        {
            let id: usize = ids[i];
            proof {
                ids@.lemma_take_succ_push(i as int);
                ids@.take(i as int).lemma_push_to_set_commute(id);
            }
            match queue.queued_coroutines.remove(&id) {
                Some(generator) => {
                    self.current_coroutine_ids.insert(id);
                    self.current_coroutines.insert(
                        id,
                        Coroutine { condition: CoroutineCondition::WaitOneFrame, generator },
                    );
                },
                None => {},
            }
            i = i + 1;
        }
        proof {
            assert(ids@.take(ids.len() as int) == ids@);
        }
    }
}

/// Manages the state and execution of tasks: queue one with
/// `start_coroutine`, and advance all of them with `update` once per frame.
pub struct CoroutineManager<G> {
    queue: CoroutineQueue<G>,
    coroutines: CurrentCoroutines<G>,
}

impl<G: Generator> CoroutineManager<G> {
    /// The queue of the tasks that were started and wait for admission.
    pub closed spec fn queue(&self) -> CoroutineQueue<G> {
        self.queue
    }

    /// The tasks that were started and wait for admission, by identifier.
    pub open spec fn pending(&self) -> Map<usize, G> {
        self.queue().queued()
    }

    /// The admitted tasks that have not run to their end, by identifier.
    pub closed spec fn active(&self) -> Map<usize, Coroutine<G>> {
        self.coroutines.coroutines()
    }

    /// The identifier that the next task will get.
    pub open spec fn next_id(&self) -> usize {
        self.queue().next_id()
    }

    /// The set of active identifiers is the key set of the active table, and
    /// the queue holds only tasks whose identifiers were given out.
    pub closed spec fn in_sync(&self) -> bool {
        self.coroutines.wf() && self.queue.wf()
    }

    /// The set of active identifiers and the active table are in sync, no task
    /// is both pending and active, and every task carries an identifier that
    /// was given out: one from 1 up to, and without, the next.
    pub open spec fn wf(&self) -> bool {
        &&& self.in_sync()
        &&& 1 <= self.next_id()
        &&& forall|id: usize| #[trigger] self.pending().contains_key(id) ==> 1 <= id < self.next_id()
        &&& forall|id: usize| #[trigger] self.active().contains_key(id) ==> 1 <= id < self.next_id()
        &&& forall|id: usize|
            !(#[trigger] self.pending().contains_key(id) && #[trigger] self.active().contains_key(id))
    }

    /// `after` is `before` with `coroutine` started under `handle`: the task is
    /// pending under the identifier that was next, and nothing else changed.
    pub open spec fn started(
        before: Self,
        after: Self,
        handle: CoroutineHandle,
        coroutine: G,
    ) -> bool {
        &&& handle@ == before.next_id()
        &&& after.next_id() == before.next_id() + 1
        &&& after.pending() == before.pending().insert(handle@, coroutine)
        &&& after.active() == before.active()
    }

    /// `after` is what is left of `before` once a tick has admitted the
    /// pending tasks and then evaluated the tasks that were active before in
    /// the given order, with `queues[k]` the queue before the evaluation of
    /// the task `order[k]` and `queues[k + 1]` the queue after it.
    ///
    /// Each of those tasks has been evaluated once, against the active tasks
    /// and the admitted ones, so that a task that ran to its end in this tick
    /// still counted as active for the others. The queue was empty when the
    /// first was evaluated, and is the manager's queue after the last.
    pub open spec fn evaluated_in_order(
        before: Self,
        after: Self,
        order: Seq<usize>,
        queues: Seq<CoroutineQueue<G>>,
    ) -> bool {
        let active_ids = before.active().dom().union(before.pending().dom());
        &&& order.no_duplicates()
        &&& order.to_set() == before.active().dom()
        &&& queues.len() == order.len() + 1
        &&& queues[0].queued() == Map::<usize, G>::empty()
        &&& queues[0].next_id() == before.next_id()
        &&& queues[order.len() as int] == after.queue()
        &&& forall|k: int|
            0 <= k < order.len() ==> before.active()[#[trigger] order[k]].evaluated(
                active_ids,
                after.active().get(order[k]),
                queues[k],
                queues[k + 1],
            )
    }

    /// `after` is what one tick may leave of `before`.
    ///
    /// Every pending task has been admitted and waits for one frame, without
    /// having been resumed. The tasks that were active already have been
    /// evaluated, each once, in some order. No other task is active. The
    /// pending tasks are those that were started during the tick, and they
    /// carry the identifiers given out meanwhile.
    pub open spec fn ticked(before: Self, after: Self) -> bool {
        let active_ids = before.active().dom().union(before.pending().dom());
        &&& before.next_id() <= after.next_id()
        &&& forall|id: usize| #[trigger]
            after.pending().contains_key(id) <==> before.next_id() <= id < after.next_id()
        &&& forall|id: usize| #[trigger]
            after.active().contains_key(id) ==> active_ids.contains(id)
        &&& forall|id: usize| #[trigger]
            before.pending().contains_key(id) ==> after.active().get(id) == Some(
                Coroutine::admitted(before.pending()[id]),
            )
        &&& exists|order: Seq<usize>, queues: Seq<CoroutineQueue<G>>| #[trigger]
            Self::evaluated_in_order(before, after, order, queues)
    }

    /// A manager without tasks, whose first handle will carry the identifier 1.
    pub fn new() -> (manager: CoroutineManager<G>)
        ensures
            manager.wf(),
            manager.pending() == Map::<usize, G>::empty(),
            manager.active() == Map::<usize, Coroutine<G>>::empty(),
            manager.next_id() == 1,
    {
        Self { queue: CoroutineQueue::new(), coroutines: CurrentCoroutines::new() }
    }

    /// Whether an identifier is left to give out, so that a task can be
    /// started.
    pub fn can_start(&self) -> (free: bool)
        ensures
            free == (self.next_id() < usize::MAX),
    {
        self.queue.can_start()
    }

    /// Queues `coroutine` for admission at the next tick and returns its
    /// handle, which no earlier task of this manager has.
    pub fn start_coroutine(&mut self, coroutine: G) -> (handle: CoroutineHandle)
        requires
            old(self).wf(),
            old(self).next_id() < usize::MAX,
        ensures
            final(self).wf(),
            Self::started(*old(self), *final(self), handle, coroutine),
    {
        let handle = self.queue.start_coroutine(coroutine);
        proof {
            assert forall|id: usize| #[trigger] self.active().contains_key(id) implies 1 <= id
                < self.next_id() by {
                assert(old(self).active().contains_key(id));
            }
            assert forall|id: usize|
                !(#[trigger] self.pending().contains_key(id) && #[trigger] self.active().contains_key(
                    id,
                )) by {
                if self.active().contains_key(id) {
                    assert(old(self).active().contains_key(id));
                    if self.pending().contains_key(id) {
                        assert(old(self).pending().contains_key(id));
                    }
                }
            }
        }
        handle
    }

    /// Runs one tick: admits the pending tasks, evaluates the tasks that were
    /// active before and resumes those whose condition holds, then removes the
    /// tasks that ran to their end.
    pub fn update(&mut self)
        requires
            old(self).wf(),
        ensures
            final(self).wf(),
            Self::ticked(*old(self), *final(self)),
    {
        let due: Vec<usize> = self.coroutines.snapshot();
        self.coroutines.drain_queue(&mut self.queue);
        let ghost table = self.coroutines.coroutines();
        proof {
            assert forall|i: int| 0 <= i < due@.len() implies table.contains_key(due@[i]) by {}
        }
        let queues = self.coroutines.update(&due, &mut self.queue);
        proof {
            let before = *old(self);
            let active_ids = before.active().dom().union(before.pending().dom());
            // what is active now was active or pending, under an identifier given out before
            assert forall|id: usize| #[trigger] self.active().contains_key(id) implies active_ids.contains(
                id,
            ) && 1 <= id < before.next_id() by {}
            // the pending tasks were admitted and left alone
            assert forall|id: usize| #[trigger] before.pending().contains_key(id) implies self.active().get(
                id,
            ) == Some(Coroutine::admitted(before.pending()[id])) by {
                assert(table.contains_key(id));
                assert(!due@.to_set().contains(id));
            }
            // what is pending now was started since the queue was emptied
            assert forall|id: usize| #[trigger]
                self.pending().contains_key(id) <==> before.next_id() <= id < self.next_id() by {}
            // the tasks that were active were evaluated against the table after admission
            assert forall|k: int| 0 <= k < due@.len() implies before.active()[#[trigger] due@[k]].evaluated(
                active_ids,
                self.active().get(due@[k]),
                queues@[k],
                queues@[k + 1],
            ) by {
                assert(due@.to_set().contains(due@[k]));
            }
            assert(Self::evaluated_in_order(before, *self, due@, queues@));
        }
    }

    /// Whether any task is pending or active: the condition under which a run
    /// loop goes on calling `update`.
    pub fn has_coroutines(&self) -> (any: bool)
        ensures
            any == !(self.active().is_empty() && self.pending().is_empty()),
    {
        !self.coroutines.current_coroutines.is_empty() || !self.queue.queued_coroutines.is_empty()
    }
}

} // verus!
