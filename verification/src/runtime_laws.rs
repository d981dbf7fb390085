//! What holds of the runtime as a whole.

use vstd::prelude::*;

use crate::completion::{completed, waker_of, woken, AcceptCompletion, CompletionView, RecvCompletion};
use crate::io_runtime::{fits, program_turn, AcceptProgram, Awaited, HandleClientProgram, Program, ProgramTurn};
use crate::runtime::{deregistered, finished, fresh_runtime, next_id, pushed, queued, registered, run_next, ProgramWaker, QueueView, RunTurn, RuntimeView, StorageView};
use crate::server::servable;

verus! {

/// A queue once all of `ids` were put behind it, one after the other.
pub open spec fn pushed_all(items: Seq<usize>, capacity: nat, ids: Seq<usize>) -> Seq<usize>
    decreases ids.len(),
{
    if ids.len() == 0 {
        items
    } else {
        pushed(pushed_all(items, capacity, ids.drop_last()), capacity, ids.last())
    }
}

/// A queue holds, in order, the newest ids that it has room for.
pub proof fn law_the_newest_are_kept(capacity: nat, ids: Seq<usize>)
    requires
        capacity > 0,
    ensures
        pushed_all(Seq::empty(), capacity, ids) == if ids.len() <= capacity {
            ids
        } else {
            ids.skip(ids.len() - capacity)
        },
    decreases ids.len(),
{
    if ids.len() == 0 {
        assert(ids =~= Seq::empty());
    } else {
        let init = ids.drop_last();
        law_the_newest_are_kept(capacity, init);
        if ids.len() <= capacity {
            assert(init.push(ids.last()) =~= ids);
        } else if init.len() <= capacity {
            assert(init.skip(1).push(ids.last()) =~= ids.skip(ids.len() - capacity));
        } else {
            assert(init.skip(init.len() - capacity).skip(1).push(ids.last()) =~= ids.skip(
                ids.len() - capacity,
            ));
        }
    }
}

/// Programs run in the order in which they were queued, and a program that was
/// put back after it ran is stored as before.
pub proof fn law_the_oldest_runs_first(v: RuntimeView, program: u64)
    requires
        v.queue.items.len() > 0,
        v.storage.programs.contains_key(v.queue.items[0]),
        v.storage.programs[v.queue.items[0]] == Some(program),
    ensures
        ({
            let id = v.queue.items[0];
            let (running, turn) = run_next(v);
            &&& turn == (RunTurn::Run { id, program })
            &&& finished(running, id, program) == (RuntimeView {
                queue: QueueView { items: v.queue.items.skip(1), ..v.queue },
                ..v
            })
        }),
{
    let id = v.queue.items[0];
    assert(v.storage.programs.insert(id, None).insert(id, Some(program)) =~= v.storage.programs);
}

/// A program that is running and is woken once more does not run twice at a time.
pub proof fn law_a_running_program_is_passed_over(v: RuntimeView)
    requires
        v.queue.items.len() > 0,
        v.storage.programs.contains_key(v.queue.items[0]),
        v.storage.programs[v.queue.items[0]] is None,
    ensures
        run_next(v) == run_next(
            RuntimeView { queue: QueueView { items: v.queue.items.skip(1), ..v.queue }, ..v },
        ),
{
    let id = v.queue.items[0];
    assert(v.storage.programs.insert(id, None) =~= v.storage.programs);
}

/// A program that was registered and queued runs, and all other programs are
/// stored as before.
pub proof fn law_a_registered_program_runs(v: RuntimeView, program: u64)
    requires
        v.queue.items.len() == 0,
        v.queue.capacity > 0,
        next_id(v.storage) <= usize::MAX,
    ensures
        ({
            let id = next_id(v.storage) as usize;
            let (running, turn) = run_next(queued(registered(v, program), id));
            &&& turn == (RunTurn::Run { id, program })
            &&& forall|other: usize|
                other != id ==> (#[trigger] running.storage.programs.contains_key(other)
                    == v.storage.programs.contains_key(other)) && (
                v.storage.programs.contains_key(other) ==> running.storage.programs[other]
                    == v.storage.programs[other])
        }),
{
}

/// A program that deregistered itself while it ran is not put back.
pub proof fn law_a_deregistered_program_is_not_put_back(v: RuntimeView, id: usize, program: u64)
    ensures
        finished(deregistered(v, id), id, program) == deregistered(v, id),
{
}

/// The id of a program that was deregistered is the next to be given out.
pub proof fn law_ids_are_given_out_again(v: RuntimeView, id: usize, program: u64)
    requires
        v.storage.programs.contains_key(id),
    ensures
        next_id(deregistered(v, id).storage) == id,
        registered(deregistered(v, id), program) == (RuntimeView {
            storage: StorageView {
                programs: v.storage.programs.insert(id, Some(program)),
                ..v.storage
            },
            ..v
        }),
{
    assert(v.storage.programs.remove(id).insert(id, Some(program))
        =~= v.storage.programs.insert(id, Some(program)));
    assert(v.storage.vacant.push(id).drop_last() =~= v.storage.vacant);
}

/// Of the programs that wait, the first that is not running already runs, and is
/// out of the storage while it does; those that are running are passed over. An id
/// without a program is told, and where nothing is left to run that is told too.
/// Nothing else changes.
pub proof fn law_the_first_that_can_runs(v: RuntimeView, k: int)
    requires
        0 <= k <= v.queue.items.len(),
        forall|i: int|
            0 <= i < k ==> v.storage.programs.contains_key(#[trigger] v.queue.items[i])
                && v.storage.programs[v.queue.items[i]] is None,
    ensures
        ({
            let (next, turn) = run_next(v);
            &&& k == v.queue.items.len() ==> {
                &&& turn == RunTurn::Idle
                &&& next.storage == v.storage
                &&& next.queue.items.len() == 0
                &&& next.queue.capacity == v.queue.capacity
            }
            &&& k < v.queue.items.len() ==> {
                let id = v.queue.items[k];
                &&& !v.storage.programs.contains_key(id) ==> {
                    &&& turn == (RunTurn::Unregistered { id })
                    &&& next.storage == v.storage
                    &&& next.queue.items == v.queue.items.skip(k + 1)
                    &&& next.queue.capacity == v.queue.capacity
                }
                &&& v.storage.programs.contains_key(id) && v.storage.programs[id] is Some ==> {
                    &&& turn == (RunTurn::Run { id, program: v.storage.programs[id]->0 })
                    &&& next.storage.programs == v.storage.programs.insert(id, None)
                    &&& next.storage.vacant == v.storage.vacant
                    &&& next.queue.items == v.queue.items.skip(k + 1)
                    &&& next.queue.capacity == v.queue.capacity
                }
            }
        }),
    decreases k,
{
    if k > 0 {
        let rest = RuntimeView {
            queue: QueueView { items: v.queue.items.skip(1), ..v.queue },
            ..v
        };
        assert(v.storage.programs.contains_key(v.queue.items[0]));
        law_a_running_program_is_passed_over(v);
        assert forall|i: int| 0 <= i < k - 1 implies rest.storage.programs.contains_key(
            #[trigger] rest.queue.items[i],
        ) && rest.storage.programs[rest.queue.items[i]] is None by {
            assert(rest.queue.items[i] == v.queue.items[i + 1]);
        }
        law_the_first_that_can_runs(rest, k - 1);
        if k < v.queue.items.len() {
            assert(rest.queue.items[k - 1] == v.queue.items[k]);
            assert(rest.queue.items.skip(k) =~= v.queue.items.skip(k + 1));
        }
    }
}

/// A program that is registered is stored under an id that was given back last, or
/// else under the number of programs; one that has run is put back; one that is
/// deregistered is gone. No other program changes, and none is queued by that.
pub proof fn law_programs_are_stored(v: RuntimeView, id: usize, program: u64)
    requires
        0 <= next_id(v.storage) <= usize::MAX,
    ensures
        next_id(v.storage) == if v.storage.vacant.len() > 0 {
            v.storage.vacant.last() as int
        } else {
            v.storage.programs.dom().len() as int
        },
        registered(v, program).storage.programs == v.storage.programs.insert(
            next_id(v.storage) as usize,
            Some(program),
        ),
        registered(v, program).queue == v.queue,
        v.storage.programs.contains_key(id) ==> finished(v, id, program).storage.programs
            == v.storage.programs.insert(id, Some(program)),
        !v.storage.programs.contains_key(id) ==> finished(v, id, program) == v,
        finished(v, id, program).queue == v.queue,
        finished(v, id, program).storage.vacant == v.storage.vacant,
        deregistered(v, id).storage.programs == v.storage.programs.remove(id),
        deregistered(v, id).queue == v.queue,
{
}

/// A program that is woken waits behind all others, where there is room; where there
/// is none, the oldest leaves for it. Nothing else changes.
pub proof fn law_woken_programs_wait(v: RuntimeView, id: usize, waker: ProgramWaker)
    ensures
        queued(v, id).storage == v.storage,
        queued(v, id).queue.capacity == v.queue.capacity,
        v.queue.items.len() < v.queue.capacity ==> queued(v, id).queue.items == v.queue.items.push(
            id,
        ),
        0 < v.queue.capacity <= v.queue.items.len() ==> queued(v, id).queue.items
            == v.queue.items.skip(1).push(id),
        waker.program() == Some(id) ==> woken(v, waker) == queued(v, id),
        waker.program() is None ==> woken(v, waker) == v,
        fresh_runtime().queue.items.len() == 0,
        fresh_runtime().queue.capacity == 128,
        forall|other: usize| !#[trigger] fresh_runtime().storage.programs.contains_key(other),
{
}

/// A completion keeps all but its result, which is what came of it, and that it is
/// complete.
pub proof fn law_completions_keep_what_they_hold(v: CompletionView, result: i32)
    ensures
        waker_of(completed(v, result)) == waker_of(v),
        match (v, completed(v, result)) {
            (
                CompletionView::Accept { addr, addrlen, .. },
                CompletionView::Accept { result: r, addr: a, addrlen: n, .. },
            ) => r == Some(result) && a == addr && n == addrlen,
            (
                CompletionView::Recv { buf, len, .. },
                CompletionView::Recv { complete, result: r, buf: b, len: n, .. },
            ) => complete && r == Some(result) && b == buf && n == len,
            (
                CompletionView::Send { buf, .. },
                CompletionView::Send { result: r, buf: b, .. },
            ) => r == Some(result) && b == buf,
            _ => false,
        },
{
}

/// A program that accepts goes on to accept, and registers the connection that was
/// accepted; one that reads a client asks for 64 bytes, unless the client is gone.
pub proof fn law_programs_go_on(
    accept: AcceptProgram,
    handle: HandleClientProgram,
    accepted: &AcceptCompletion,
    received: &RecvCompletion,
)
    ensures
        program_turn(Program::Accept(accept), Awaited::Accept(accepted)) == (ProgramTurn::Accept {
            register: accepted.outcome(),
        }),
        program_turn(Program::Accept(accept), Awaited::Nothing) == (ProgramTurn::Accept {
            register: None,
        }),
        received.outcome() == Some(0i32) ==> program_turn(
            Program::HandleClient(handle),
            Awaited::Recv(received),
        ) == ProgramTurn::Idle,
        received.outcome() != Some(0i32) ==> program_turn(
            Program::HandleClient(handle),
            Awaited::Recv(received),
        ) == ProgramTurn::Recv(64),
        program_turn(Program::HandleClient(handle), Awaited::Nothing) == ProgramTurn::Recv(64),
{
}

/// A connection is served that came over IPv4 and was accepted, and a program goes
/// on with what it waited for.
pub proof fn law_accepted_connections_are_served(
    program: Program,
    accepted: &AcceptCompletion,
    received: &RecvCompletion,
)
    ensures
        servable(None),
        servable(Some(accepted)) <==> accepted.address().sa_family == 2
            && accepted.outcome() is Some,
        fits(program, Awaited::Nothing),
        program is Accept ==> (fits(program, Awaited::Accept(accepted)) <==> servable(
            Some(accepted),
        )),
        program is HandleClient ==> (fits(program, Awaited::Recv(received))
            <==> received.complete()),
{
}

} // verus!
