//! A runtime with a fixed set of programs: one that accepts connections, and
//! one for each connection that reads what its client sends.

use vstd::prelude::*;

use crate::completion::{AcceptCompletion, RecvCompletion};
use crate::runtime::{finished, fresh_runtime, next_id, next_to_run, pushed, queued, registered, run_next, ProgramsStorage, QueueView, RunQueue, RunTurn, RuntimeView, PROGRAMS};
use crate::server::{servable, AF_INET};

verus! {

/// How many bytes of a client are asked for at once.
pub const CLIENT_READ: usize = 64;

/// What a program wants done before its next step.
#[derive(Debug, Clone, Copy, PartialEq, Eq, Structural)]
pub enum ProgramTurn {
    /// Nothing: the client is gone.
    Idle,
    /// The connection registered, if there is one, and the next one accepted.
    Accept { register: Option<i32> },
    /// As many bytes received at most.
    Recv(usize),
}

/// Accepts connections.
pub struct AcceptProgram;

impl AcceptProgram {
    /// Goes on after a connection was accepted, if any was.
    pub fn step(&self, accepted: Option<&AcceptCompletion>) -> (turn: ProgramTurn)
        requires
            servable(accepted),
        ensures
            turn == (ProgramTurn::Accept {
                register: match accepted {
                    Some(c) => c.outcome(),
                    None => None,
                },
            }),
    {
        match accepted {
            Some(c) => ProgramTurn::Accept { register: c.result() },
            None => ProgramTurn::Accept { register: None },
        }
    }
}

/// Reads what a client sends.
pub struct HandleClientProgram;

/// What came of receiving was the end of what the client sends.
pub open spec fn at_end(received: Option<&RecvCompletion>) -> bool {
    received matches Some(c) && c.outcome() == Some(0i32)
}

impl HandleClientProgram {
    /// Goes on after something was received, if anything was.
    pub fn step(&self, received: Option<&RecvCompletion>) -> (turn: ProgramTurn)
        requires
            received matches Some(c) ==> c.complete(),
        ensures
            turn == if at_end(received) {
                ProgramTurn::Idle
            } else {
                ProgramTurn::Recv(CLIENT_READ)
            },
    {
        match received {
            Some(c) => {
                match c.result() {
                    Some(0) => {
                        return ProgramTurn::Idle;
                    },
                    _ => {},
                }
            },
            None => {},
        }
        ProgramTurn::Recv(CLIENT_READ)
    }
}

/// A program.
pub enum Program {
    Accept(AcceptProgram),
    HandleClient(HandleClientProgram),
}

/// What a program waited for, if it waited for anything.
pub enum Awaited<'a> {
    Nothing,
    Accept(&'a AcceptCompletion),
    Recv(&'a RecvCompletion),
}

/// The program waited for what it can go on with.
pub open spec fn fits(program: Program, awaited: Awaited) -> bool {
    match (program, awaited) {
        (_, Awaited::Nothing) => true,
        (Program::Accept(_), Awaited::Accept(c)) => servable(Some(c)),
        (Program::HandleClient(_), Awaited::Recv(c)) => c.complete(),
        _ => false,
    }
}

/// What a program wants done next.
pub open spec fn program_turn(program: Program, awaited: Awaited) -> ProgramTurn {
    match program {
        Program::Accept(_) => ProgramTurn::Accept {
            register: match awaited {
                Awaited::Accept(c) => c.outcome(),
                _ => None,
            },
        },
        Program::HandleClient(_) => match awaited {
            Awaited::Recv(c) if c.outcome() == Some(0i32) => ProgramTurn::Idle,
            _ => ProgramTurn::Recv(CLIENT_READ),
        },
    }
}

impl Program {
    /// Whether the program waited for what it can go on with.
    pub fn can_step(&self, awaited: &Awaited) -> (yes: bool)
        ensures
            yes == fits(*self, *awaited),
    {
        match (self, awaited) {
            (_, Awaited::Nothing) => true,
            (Program::Accept(_), Awaited::Accept(c)) => c.sockaddr().sa_family == AF_INET
                && c.result().is_some(),
            (Program::HandleClient(_), Awaited::Recv(c)) => c.is_complete(),
            _ => false,
        }
    }

    /// Goes on after what it waited for.
    pub fn step(&self, awaited: Awaited) -> (turn: ProgramTurn)
        requires
            fits(*self, awaited),
        ensures
            turn == program_turn(*self, awaited),
    {
        match self {
            Program::Accept(program) => match awaited {
                Awaited::Accept(c) => program.step(Some(c)),
                _ => program.step(None),
            },
            Program::HandleClient(program) => match awaited {
                Awaited::Recv(c) => program.step(Some(c)),
                _ => program.step(None),
            },
        }
    }
}

/// Runs programs as they are woken.
pub struct Runtime {
    programs: ProgramsStorage,
    run_queue: RunQueue,
}

impl View for Runtime {
    type V = RuntimeView;

    closed spec fn view(&self) -> RuntimeView {
        RuntimeView { storage: self.programs@, queue: self.run_queue@ }
    }
}

impl Runtime {
    /// A runtime without programs.
    pub fn new() -> (runtime: Self)
        ensures
            runtime@ == fresh_runtime(),
    {
        Runtime { programs: ProgramsStorage::new(PROGRAMS), run_queue: RunQueue::new() }
    }

    /// Finds what is to run next. A program that is to run is taken out until
    /// it is put back by [`set`](Self::set).
    pub fn step(&mut self) -> (turn: RunTurn)
        ensures
            run_next(old(self)@) == (final(self)@, turn),
    {
        next_to_run(&mut self.programs, &mut self.run_queue)
    }

    /// Puts a program back that has run.
    pub fn set(&mut self, id: usize, program: u64)
        requires
            old(self)@.storage.programs.contains_key(id),
        ensures
            final(self)@ == finished(old(self)@, id, program),
    {
        self.programs.set(id, program);
    }

    /// Stores a program that accepts connections, and queues it to be run.
    pub fn new_accept(&mut self, program: u64) -> (id: usize)
        ensures
            id == next_id(old(self)@.storage),
            !old(self)@.storage.programs.contains_key(id),
            final(self)@ == queued(registered(old(self)@, program), id),
    {
        self.serve(program)
    }

    /// The program for a new connection.
    pub fn new_client_handler(&self) -> (program: Program)
        ensures
            program is HandleClient,
    {
        Program::HandleClient(HandleClientProgram)
    }

    /// Stores a program, such as the one for a new connection, and queues it to
    /// be run.
    pub fn serve(&mut self, program: u64) -> (id: usize)
        ensures
            id == next_id(old(self)@.storage),
            !old(self)@.storage.programs.contains_key(id),
            final(self)@ == queued(registered(old(self)@, program), id),
    {
        let id: usize = self.programs.insert(program);
        self.run_queue.push(id);
        id
    }

    /// Queues a program to be run.
    pub fn queue(&mut self, id: usize)
        ensures
            final(self)@ == queued(old(self)@, id),
    {
        self.run_queue.push(id);
    }
}

/// Something that can be woken.
pub trait Waker {
    fn wake_by_ref(&self, queue: &mut RunQueue) {
    }
}

/// Wakes a program: it can run again.
#[derive(Debug, Clone, Copy, PartialEq, Eq, Structural)]
pub struct ProgramWaker {
    program_id: usize,
}

impl ProgramWaker {
    /// The program that is woken.
    pub closed spec fn program(&self) -> usize {
        self.program_id
    }

    /// A waker for the program with this id.
    pub fn new(program_id: usize) -> (waker: Self)
        ensures
            waker.program() == program_id,
    {
        ProgramWaker { program_id }
    }
}

impl Waker for ProgramWaker {
    fn wake_by_ref(&self, queue: &mut RunQueue)
        ensures
            final(queue)@ == (QueueView {
                items: pushed(old(queue)@.items, old(queue)@.capacity, self.program()),
                ..old(queue)@
            }),
    {
        queue.push(self.program_id);
    }
}

} // verus!
