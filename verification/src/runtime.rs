//! The runtime: programs that are stored under ids, and the queue of those
//! that can run.

use vstd::prelude::*;

use crossbeam::queue::ArrayQueue;
use slab::Slab;

verus! {

/// How many programs there is room for at first, and how many can wait to run.
pub const PROGRAMS: usize = 128;

/// The most bytes that a program takes in the storage.
pub const ENTRY_BYTES: usize = 24;

/// The declaration of `crossbeam::queue::ArrayQueue`.
#[verifier::external_type_specification]
#[verifier::external_body]
#[verifier::reject_recursive_types(T)]
pub struct ExArrayQueue<T>(ArrayQueue<T>);

/// The declaration of `slab::Slab`.
#[verifier::external_type_specification]
#[verifier::external_body]
#[verifier::reject_recursive_types(T)]
pub struct ExSlab<T>(Slab<T>);

/// What a queue holds, the oldest first.
pub uninterp spec fn queue_items(queue: ArrayQueue<usize>) -> Seq<usize>;

/// How much a queue can hold.
pub uninterp spec fn queue_capacity(queue: ArrayQueue<usize>) -> nat;

/// What a slab holds, by its key.
pub uninterp spec fn slab_items(slab: Slab<Option<u64>>) -> Map<usize, Option<u64>>;

/// The keys of a slab that were given back and not taken again, in the order
/// in which they were given back.
pub uninterp spec fn slab_vacant(slab: Slab<Option<u64>>) -> Seq<usize>;

/// `ArrayQueue::new`: an empty queue with room for `capacity` items. With no
/// room at all it would panic.
#[verifier::external_body]
fn array_queue_new(capacity: usize) -> (queue: ArrayQueue<usize>)
    requires
        0 < capacity <= PROGRAMS,
    ensures
        queue_items(queue) == Seq::<usize>::empty(),
        queue_capacity(queue) == capacity,
{
    ArrayQueue::new(capacity)
}

/// `ArrayQueue::force_push`: puts an item behind all others. Where there is no
/// room, the oldest item leaves the queue for it, and is returned.
#[verifier::external_body]
fn array_queue_force_push(queue: &mut ArrayQueue<usize>, item: usize) -> (dropped: Option<usize>)
    ensures
        queue_capacity(*final(queue)) == queue_capacity(*old(queue)),
        queue_items(*final(queue)) == pushed(
            queue_items(*old(queue)),
            queue_capacity(*old(queue)),
            item,
        ),
        dropped == if queue_items(*old(queue)).len() < queue_capacity(*old(queue)) {
            None::<usize>
        } else {
            Some(queue_items(*old(queue))[0])
        },
{
    queue.force_push(item)
}

/// `ArrayQueue::pop`: takes the oldest item out, where there is one.
#[verifier::external_body]
fn array_queue_pop(queue: &mut ArrayQueue<usize>) -> (item: Option<usize>)
    ensures
        queue_capacity(*final(queue)) == queue_capacity(*old(queue)),
        queue_items(*old(queue)).len() == 0 ==> item is None && queue_items(*final(queue))
            == queue_items(*old(queue)),
        queue_items(*old(queue)).len() > 0 ==> item == Some(queue_items(*old(queue))[0])
            && queue_items(*final(queue)) == queue_items(*old(queue)).skip(1),
{
    queue.pop()
}

/// `Slab::with_capacity`: an empty slab with room for `capacity` items. An item
/// takes at most [`ENTRY_BYTES`] bytes, and with more than `isize::MAX` bytes it
/// would panic.
#[verifier::external_body]
fn slab_with_capacity(capacity: usize) -> (slab: Slab<Option<u64>>)
    requires
        capacity * ENTRY_BYTES <= isize::MAX,
    ensures
        slab_items(slab) == no_items(),
        slab_vacant(slab) == Seq::<usize>::empty(),
{
    Slab::with_capacity(capacity)
}

/// `Slab::insert`: stores an item under the key that was given back last, or,
/// where there is none, under the number of items. The key was not in use.
#[verifier::external_body]
fn slab_insert(slab: &mut Slab<Option<u64>>, item: Option<u64>) -> (key: usize)
    ensures
        slab_items(*final(slab)) == slab_items(*old(slab)).insert(key, item),
        !slab_items(*old(slab)).contains_key(key),
        slab_vacant(*old(slab)).len() > 0 ==> key == slab_vacant(*old(slab)).last()
            && slab_vacant(*final(slab)) == slab_vacant(*old(slab)).drop_last(),
        slab_vacant(*old(slab)).len() == 0 ==> key == slab_items(*old(slab)).dom().len()
            && slab_vacant(*final(slab)) == slab_vacant(*old(slab)),
{
    slab.insert(item)
}

/// `Slab::remove`: takes an item out and gives its key back. With a key that is
/// not in use it would panic.
#[verifier::external_body]
fn slab_remove(slab: &mut Slab<Option<u64>>, key: usize) -> (item: Option<u64>)
    requires
        slab_items(*old(slab)).contains_key(key),
    ensures
        item == slab_items(*old(slab))[key],
        slab_items(*final(slab)) == slab_items(*old(slab)).remove(key),
        slab_vacant(*final(slab)) == slab_vacant(*old(slab)).push(key),
{
    slab.remove(key)
}

/// `Slab::contains`: whether a key is in use.
#[verifier::external_body]
fn slab_contains(slab: &Slab<Option<u64>>, key: usize) -> (yes: bool)
    ensures
        yes == slab_items(*slab).contains_key(key),
{
    slab.contains(key)
}

/// The index of a `Slab`: the item under a key. With a key that is not in use
/// it would panic.
#[verifier::external_body]
fn slab_get(slab: &Slab<Option<u64>>, key: usize) -> (item: Option<u64>)
    requires
        slab_items(*slab).contains_key(key),
    ensures
        item == slab_items(*slab)[key],
{
    slab[key]
}

/// The mutable index of a `Slab`, assigned to: replaces the item under a key.
/// With a key that is not in use it would panic.
#[verifier::external_body]
fn slab_set(slab: &mut Slab<Option<u64>>, key: usize, item: Option<u64>)
    requires
        slab_items(*old(slab)).contains_key(key),
    ensures
        slab_items(*final(slab)) == slab_items(*old(slab)).insert(key, item),
        slab_vacant(*final(slab)) == slab_vacant(*old(slab)),
{
    slab[key] = item;
}

/// No items at all.
pub open spec fn no_items() -> Map<usize, Option<u64>> {
    Map::empty()
}

/// A queue once `item` was put behind all others: where there is no room, the
/// oldest leaves for it.
pub open spec fn pushed(items: Seq<usize>, capacity: nat, item: usize) -> Seq<usize> {
    if items.len() < capacity {
        items.push(item)
    } else {
        items.skip(1).push(item)
    }
}

/// What a step of a program came to.
pub enum StepResult<T> {
    Complete(T),
    Pending,
}

/// [`RunQueue`], mathematically.
pub struct QueueView {
    pub items: Seq<usize>,
    pub capacity: nat,
}

/// The ids of the programs that can run.
pub struct RunQueue {
    queue: ArrayQueue<usize>,
}

impl View for RunQueue {
    type V = QueueView;

    closed spec fn view(&self) -> QueueView {
        QueueView { items: queue_items(self.queue), capacity: queue_capacity(self.queue) }
    }
}

impl RunQueue {
    /// An empty queue.
    pub fn new() -> (queue: Self)
        ensures
            queue@ == (QueueView { items: Seq::empty(), capacity: PROGRAMS as nat }),
    {
        RunQueue { queue: array_queue_new(PROGRAMS) }
    }

    /// Puts an id behind all others. Where there is no room, the oldest leaves
    /// for it.
    pub fn push(&mut self, id: usize)
        ensures
            final(self)@ == (QueueView {
                items: pushed(old(self)@.items, old(self)@.capacity, id),
                ..old(self)@
            }),
    {
        let _ = array_queue_force_push(&mut self.queue, id);
    }

    /// Takes the oldest id out.
    pub fn pop(&mut self) -> (id: Option<usize>)
        ensures
            old(self)@.items.len() == 0 ==> id is None && final(self)@ == old(self)@,
            old(self)@.items.len() > 0 ==> id == Some(old(self)@.items[0]) && final(self)@ == (
            QueueView { items: old(self)@.items.skip(1), ..old(self)@ }),
    {
        array_queue_pop(&mut self.queue)
    }
}

/// [`ProgramsStorage`], mathematically.
pub struct StorageView {
    /// The programs by their ids; none while the program runs.
    pub programs: Map<usize, Option<u64>>,
    /// The ids that were given back and not taken again.
    pub vacant: Seq<usize>,
}

/// The id that the next program gets.
pub open spec fn next_id(v: StorageView) -> int {
    if v.vacant.len() > 0 {
        v.vacant.last() as int
    } else {
        v.programs.dom().len() as int
    }
}

/// The storage once `program` was stored.
pub open spec fn stored_program(v: StorageView, id: usize, program: u64) -> StorageView {
    StorageView {
        programs: v.programs.insert(id, Some(program)),
        vacant: if v.vacant.len() > 0 {
            v.vacant.drop_last()
        } else {
            v.vacant
        },
    }
}

/// Programs that are stored under ids. A program is known by a number.
pub struct ProgramsStorage {
    slab: Slab<Option<u64>>,
}

impl View for ProgramsStorage {
    type V = StorageView;

    closed spec fn view(&self) -> StorageView {
        StorageView { programs: slab_items(self.slab), vacant: slab_vacant(self.slab) }
    }
}

impl ProgramsStorage {
    /// A storage without programs.
    pub fn new(capacity: usize) -> (storage: Self)
        requires
            capacity * ENTRY_BYTES <= isize::MAX,
        ensures
            storage@ == (StorageView { programs: Map::empty(), vacant: Seq::empty() }),
    {
        ProgramsStorage { slab: slab_with_capacity(capacity) }
    }

    /// Whether there is a program with this id, though it may be running.
    pub fn contains(&self, id: usize) -> (yes: bool)
        ensures
            yes == self@.programs.contains_key(id),
    {
        slab_contains(&self.slab, id)
    }

    /// Takes a program out, to run it.
    pub fn take(&mut self, id: usize) -> (program: Option<u64>)
        requires
            old(self)@.programs.contains_key(id),
        ensures
            program == old(self)@.programs[id],
            final(self)@ == (StorageView {
                programs: old(self)@.programs.insert(id, None),
                ..old(self)@
            }),
    {
        let program = slab_get(&self.slab, id);
        slab_set(&mut self.slab, id, None);
        program
    }

    /// Puts a program back, unless it is gone.
    pub fn try_set(&mut self, id: usize, program: u64)
        ensures
            final(self)@ == if old(self)@.programs.contains_key(id) {
                StorageView {
                    programs: old(self)@.programs.insert(id, Some(program)),
                    ..old(self)@
                }
            } else {
                old(self)@
            },
    {
        if slab_contains(&self.slab, id) {
            slab_set(&mut self.slab, id, Some(program));
        }
    }

    /// Puts a program back.
    pub fn set(&mut self, id: usize, program: u64)
        requires
            old(self)@.programs.contains_key(id),
        ensures
            final(self)@ == (StorageView {
                programs: old(self)@.programs.insert(id, Some(program)),
                ..old(self)@
            }),
    {
        slab_set(&mut self.slab, id, Some(program));
    }

    /// Stores a program under an id of its own.
    pub fn insert(&mut self, program: u64) -> (id: usize)
        ensures
            id == next_id(old(self)@),
            !old(self)@.programs.contains_key(id),
            final(self)@ == stored_program(old(self)@, id, program),
    {
        slab_insert(&mut self.slab, Some(program))
    }

    /// Removes a program and gives its id back.
    pub fn remove(&mut self, id: usize) -> (program: Option<u64>)
        requires
            old(self)@.programs.contains_key(id),
        ensures
            program == old(self)@.programs[id],
            final(self)@ == (StorageView {
                programs: old(self)@.programs.remove(id),
                vacant: old(self)@.vacant.push(id),
            }),
    {
        slab_remove(&mut self.slab, id)
    }
}

/// What is to run next.
#[derive(Debug, Clone, Copy, PartialEq, Eq, Structural)]
pub enum RunTurn {
    /// Nothing: the queue is empty.
    Idle,
    /// The program with this id.
    Run { id: usize, program: u64 },
    /// An id was waiting under which there is no program.
    Unregistered { id: usize },
}

/// A runtime, mathematically.
pub struct RuntimeView {
    pub storage: StorageView,
    pub queue: QueueView,
}

/// The runtime once it was found what is to run next. A program that is
/// running already is passed over.
pub open spec fn run_next(v: RuntimeView) -> (RuntimeView, RunTurn)
    decreases v.queue.items.len(),
{
    if v.queue.items.len() == 0 {
        (v, RunTurn::Idle)
    } else {
        let id = v.queue.items[0];
        let rest = RuntimeView {
            queue: QueueView { items: v.queue.items.skip(1), ..v.queue },
            ..v
        };
        if !v.storage.programs.contains_key(id) {
            (rest, RunTurn::Unregistered { id })
        } else {
            let taken = RuntimeView {
                storage: StorageView {
                    programs: v.storage.programs.insert(id, None),
                    ..v.storage
                },
                ..rest
            };
            match v.storage.programs[id] {
                Some(program) => (taken, RunTurn::Run { id, program }),
                None => run_next(taken),
            }
        }
    }
}

/// The runtime that a storage and a queue make.
pub open spec fn joint_view(programs: ProgramsStorage, run_queue: RunQueue) -> RuntimeView {
    RuntimeView { storage: programs@, queue: run_queue@ }
}

/// Finds what is to run next, and takes it out.
pub(crate) fn next_to_run(programs: &mut ProgramsStorage, run_queue: &mut RunQueue) -> (turn:
    RunTurn)
    ensures
        run_next(joint_view(*old(programs), *old(run_queue))) == (
            joint_view(*final(programs), *final(run_queue)),
            turn,
        ),
{
    loop
        invariant
            run_next(joint_view(*programs, *run_queue)) == run_next(
                joint_view(*old(programs), *old(run_queue)),
            ),
        decreases run_queue@.items.len(),
    {
        let id: usize = match run_queue.pop() {
            Some(id) => id,
            None => {
                return RunTurn::Idle;
            },
        };
        if !programs.contains(id) {
            return RunTurn::Unregistered { id };
        }
        match programs.take(id) {
            Some(program) => {
                return RunTurn::Run { id, program };
            },
            None => {},
        }
    }
}

/// The runtime once `id` was queued.
pub open spec fn queued(v: RuntimeView, id: usize) -> RuntimeView {
    RuntimeView {
        queue: QueueView { items: pushed(v.queue.items, v.queue.capacity, id), ..v.queue },
        ..v
    }
}

/// The runtime once `program` was registered.
pub open spec fn registered(v: RuntimeView, program: u64) -> RuntimeView {
    RuntimeView {
        storage: stored_program(v.storage, next_id(v.storage) as usize, program),
        ..v
    }
}

/// The runtime once the program with this id was deregistered.
pub open spec fn deregistered(v: RuntimeView, id: usize) -> RuntimeView {
    RuntimeView {
        storage: StorageView {
            programs: v.storage.programs.remove(id),
            vacant: v.storage.vacant.push(id),
        },
        ..v
    }
}

/// The runtime once the program with this id was put back, unless it is gone.
pub open spec fn finished(v: RuntimeView, id: usize, program: u64) -> RuntimeView {
    if v.storage.programs.contains_key(id) {
        RuntimeView {
            storage: StorageView {
                programs: v.storage.programs.insert(id, Some(program)),
                ..v.storage
            },
            ..v
        }
    } else {
        v
    }
}

/// A runtime without programs.
pub open spec fn fresh_runtime() -> RuntimeView {
    RuntimeView {
        storage: StorageView { programs: Map::empty(), vacant: Seq::empty() },
        queue: QueueView { items: Seq::empty(), capacity: PROGRAMS as nat },
    }
}

/// Runs programs as they are woken.
pub struct RuntimeInner {
    programs: ProgramsStorage,
    run_queue: RunQueue,
}

impl View for RuntimeInner {
    type V = RuntimeView;

    closed spec fn view(&self) -> RuntimeView {
        RuntimeView { storage: self.programs@, queue: self.run_queue@ }
    }
}

impl RuntimeInner {
    /// A runtime without programs.
    pub fn new() -> (runtime: Self)
        ensures
            runtime@ == fresh_runtime(),
    {
        RuntimeInner { programs: ProgramsStorage::new(PROGRAMS), run_queue: RunQueue::new() }
    }

    /// Finds what is to run next. A program that is to run is taken out until
    /// it is put back by [`finish`](Self::finish).
    pub fn step(&mut self) -> (turn: RunTurn)
        ensures
            run_next(old(self)@) == (final(self)@, turn),
    {
        next_to_run(&mut self.programs, &mut self.run_queue)
    }

    /// Puts a program back that has run, unless it deregistered itself.
    pub fn finish(&mut self, id: usize, program: u64)
        ensures
            final(self)@ == finished(old(self)@, id, program),
    {
        self.programs.try_set(id, program);
    }

    /// Queues a program to be run.
    pub fn queue(&mut self, id: usize)
        ensures
            final(self)@ == queued(old(self)@, id),
    {
        self.run_queue.push(id);
    }

    /// Stores a program under an id of its own.
    pub fn register(&mut self, program: u64) -> (id: usize)
        ensures
            id == next_id(old(self)@.storage),
            !old(self)@.storage.programs.contains_key(id),
            final(self)@ == registered(old(self)@, program),
    {
        self.programs.insert(program)
    }

    /// Whether there is a program with this id.
    pub fn is_registered(&self, id: usize) -> (yes: bool)
        ensures
            yes == self@.storage.programs.contains_key(id),
    {
        self.programs.contains(id)
    }

    /// Removes a program.
    pub fn deregister(&mut self, id: usize) -> (program: Option<u64>)
        requires
            old(self)@.storage.programs.contains_key(id),
        ensures
            program == old(self)@.storage.programs[id],
            final(self)@ == deregistered(old(self)@, id),
    {
        self.programs.remove(id)
    }
}

/// Wakes a program: it can run again.
#[derive(Debug, Clone, Copy, PartialEq, Eq, Structural)]
pub struct ProgramWaker {
    program_id: Option<usize>,
}

impl ProgramWaker {
    /// The program that is woken.
    pub closed spec fn program(&self) -> Option<usize> {
        self.program_id
    }

    /// A waker for the program with this id, or for none.
    pub fn new(program_id: Option<usize>) -> (waker: Self)
        ensures
            waker.program() == program_id,
    {
        ProgramWaker { program_id }
    }

    /// The program that is woken.
    pub fn id(&self) -> (id: Option<usize>)
        ensures
            id == self.program(),
    {
        self.program_id
    }

    /// Queues the program to be run.
    pub fn wake_by_ref(&self, runtime: &mut RuntimeInner)
        ensures
            final(runtime)@ == match self.program() {
                Some(id) => queued(old(runtime)@, id),
                None => old(runtime)@,
            },
    {
        match self.program_id {
            Some(id) => runtime.queue(id),
            None => {},
        }
    }
}

} // verus!
