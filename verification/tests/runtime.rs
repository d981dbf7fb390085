use turso_io::completion::{AppCompletion, SockAddr};
use turso_io::database::{execute_step, StatementError, StatementStep, StatementTurn};
use turso_io::io_runtime::{Awaited, Program, AcceptProgram, HandleClientProgram, ProgramTurn, Runtime, Waker};
use turso_io::io_runtime::ProgramWaker as IoWaker;
use turso_io::runtime::{ProgramWaker, ProgramsStorage, RunQueue, RunTurn, RuntimeInner};

#[test]
fn the_queue_is_first_in_first_out() {
    let mut queue = RunQueue::new();
    assert_eq!(queue.pop(), None);
    queue.push(7);
    queue.push(3);
    queue.push(7);
    assert_eq!(queue.pop(), Some(7));
    assert_eq!(queue.pop(), Some(3));
    assert_eq!(queue.pop(), Some(7));
    assert_eq!(queue.pop(), None);
}

#[test]
fn a_full_queue_drops_the_oldest() {
    let mut queue = RunQueue::new();
    for id in 0..130usize {
        queue.push(id);
    }
    for id in 2..130usize {
        assert_eq!(queue.pop(), Some(id));
    }
    assert_eq!(queue.pop(), None);
}

#[test]
fn ids_are_given_out_again_last_first() {
    let mut storage = ProgramsStorage::new(128);
    assert_eq!(storage.insert(10), 0);
    assert_eq!(storage.insert(11), 1);
    assert_eq!(storage.insert(12), 2);
    assert_eq!(storage.remove(0), Some(10));
    assert_eq!(storage.remove(1), Some(11));
    assert!(!storage.contains(0));
    assert_eq!(storage.insert(13), 1);
    assert_eq!(storage.insert(14), 0);
    assert_eq!(storage.insert(15), 3);
    assert_eq!(storage.take(1), Some(13));
    assert_eq!(storage.take(1), None);
    assert!(storage.contains(1));
    storage.set(1, 16);
    assert_eq!(storage.take(1), Some(16));
    storage.try_set(1, 17);
    storage.try_set(99, 18);
    assert_eq!(storage.take(1), Some(17));
    assert!(!storage.contains(99));
}

#[test]
fn registered_programs_run_in_order() {
    let mut runtime = RuntimeInner::new();
    assert_eq!(runtime.step(), RunTurn::Idle);
    let a = runtime.register(100);
    let b = runtime.register(200);
    runtime.queue(b);
    runtime.queue(a);
    assert_eq!(runtime.step(), RunTurn::Run { id: b, program: 200 });
    runtime.finish(b, 200);
    assert_eq!(runtime.step(), RunTurn::Run { id: a, program: 100 });
    runtime.finish(a, 100);
    assert_eq!(runtime.step(), RunTurn::Idle);
    runtime.queue(a);
    assert_eq!(runtime.step(), RunTurn::Run { id: a, program: 100 });
}

#[test]
fn a_running_program_is_passed_over() {
    let mut runtime = RuntimeInner::new();
    let a = runtime.register(1);
    let b = runtime.register(2);
    runtime.queue(a);
    runtime.queue(a);
    runtime.queue(b);
    assert_eq!(runtime.step(), RunTurn::Run { id: a, program: 1 });
    assert_eq!(runtime.step(), RunTurn::Run { id: b, program: 2 });
}

#[test]
fn a_deregistered_program_is_not_put_back() {
    let mut runtime = RuntimeInner::new();
    let a = runtime.register(1);
    runtime.queue(a);
    assert_eq!(runtime.step(), RunTurn::Run { id: a, program: 1 });
    assert_eq!(runtime.deregister(a), None);
    runtime.finish(a, 1);
    assert!(!runtime.is_registered(a));
    runtime.queue(a);
    assert_eq!(runtime.step(), RunTurn::Unregistered { id: a });
    assert_eq!(runtime.register(5), a);
}

#[test]
fn wakers_queue_their_program() {
    let mut runtime = RuntimeInner::new();
    let a = runtime.register(1);
    let waker = ProgramWaker::new(Some(a));
    assert_eq!(waker.id(), Some(a));
    waker.wake_by_ref(&mut runtime);
    ProgramWaker::new(None).wake_by_ref(&mut runtime);
    assert_eq!(runtime.step(), RunTurn::Run { id: a, program: 1 });
    assert_eq!(runtime.step(), RunTurn::Idle);
}

#[test]
fn completions_note_results_and_wake() {
    let mut runtime = RuntimeInner::new();
    let a = runtime.register(1);
    let waker = ProgramWaker::new(Some(a));
    let mut recv = AppCompletion::new_recv(waker, 3);
    if let AppCompletion::Recv(c) = &mut recv {
        assert!(!c.is_complete());
        assert_eq!(c.len(), 3);
        assert_eq!(c.buf_mut(), &vec![0u8; 3]);
        c.buf_mut().truncate(2);
        c.buf_mut()[0] = 9;
    }
    recv.callback(2, &mut runtime);
    match &recv {
        AppCompletion::Recv(c) => {
            assert!(c.is_complete());
            assert_eq!(c.result(), Some(2));
            assert_eq!(c.buf(), &[9, 0]);
        }
        _ => panic!("expected bytes"),
    }
    assert_eq!(runtime.step(), RunTurn::Run { id: a, program: 1 });
    runtime.finish(a, 1);
    let mut send = AppCompletion::new_send(waker, b"hi".to_vec());
    if let AppCompletion::Send(c) = &mut send {
        assert_eq!(c.result(), None);
        assert_eq!(c.buf_mut(), b"hi");
    }
    send.callback(-1, &mut runtime);
    assert!(matches!(&send, AppCompletion::Send(c) if c.result() == Some(-1)));
    assert_eq!(runtime.step(), RunTurn::Run { id: a, program: 1 });
    runtime.finish(a, 1);
    let mut accept = AppCompletion::new_accept(waker);
    if let AppCompletion::Accept(c) = &mut accept {
        assert_eq!(c.result(), None);
        assert_eq!(c.sockaddr().sa_family, 0);
        assert_eq!(c.sockaddr().sa_data, [0u8; 14]);
        assert_eq!(c.addrlen(), 16);
        c.set_sockaddr(SockAddr { sa_family: 2, sa_data: [1u8; 14] }, 8);
    }
    accept.callback(5, &mut runtime);
    assert!(matches!(&accept, AppCompletion::Accept(c) if c.result() == Some(5) && c.addrlen() == 8 && c.sockaddr().sa_family == 2));
    assert_eq!(runtime.step(), RunTurn::Run { id: a, program: 1 });
}

#[test]
fn the_fixed_runtime_accepts_and_reads() {
    let mut runtime = Runtime::new();
    let accept = runtime.new_accept(1);
    assert_eq!(runtime.step(), RunTurn::Run { id: accept, program: 1 });
    assert_eq!(runtime.step(), RunTurn::Idle);
    let program = Program::Accept(AcceptProgram);
    assert!(program.can_step(&Awaited::Nothing));
    assert_eq!(program.step(Awaited::Nothing), ProgramTurn::Accept { register: None });
    let mut other = RuntimeInner::new();
    let mut completion = AppCompletion::new_accept(ProgramWaker::new(None));
    if let AppCompletion::Accept(c) = &completion {
        assert!(!program.can_step(&Awaited::Accept(c)));
    }
    if let AppCompletion::Accept(c) = &mut completion {
        c.set_sockaddr(SockAddr { sa_family: 2, sa_data: [0u8; 14] }, 16);
    }
    completion.callback(33, &mut other);
    if let AppCompletion::Accept(c) = &completion {
        assert!(program.can_step(&Awaited::Accept(c)));
        assert_eq!(program.step(Awaited::Accept(c)), ProgramTurn::Accept { register: Some(33) });
    }
    assert!(matches!(runtime.new_client_handler(), Program::HandleClient(_)));
    let client = runtime.serve(2);
    runtime.set(accept, 1);
    assert_eq!(runtime.step(), RunTurn::Run { id: client, program: 2 });
}

#[test]
fn clients_are_read_until_they_end() {
    let client = Program::HandleClient(HandleClientProgram);
    assert_eq!(client.step(Awaited::Nothing), ProgramTurn::Recv(64));
    let mut runtime = RuntimeInner::new();
    for (result, turn) in [(5, ProgramTurn::Recv(64)), (-1, ProgramTurn::Recv(64)), (0, ProgramTurn::Idle)] {
        let mut completion = AppCompletion::new_recv(ProgramWaker::new(None), 64);
        if let AppCompletion::Recv(c) = &completion {
            assert!(!client.can_step(&Awaited::Recv(c)));
        }
        completion.callback(result, &mut runtime);
        if let AppCompletion::Recv(c) = &completion {
            assert_eq!(client.step(Awaited::Recv(c)), turn);
        }
    }
}

struct Quiet;

impl Waker for Quiet {}

#[test]
fn the_fixed_wakers_queue_their_program() {
    let mut queue = RunQueue::new();
    Quiet.wake_by_ref(&mut queue);
    assert_eq!(queue.pop(), None);
    IoWaker::new(4).wake_by_ref(&mut queue);
    assert_eq!(queue.pop(), Some(4));
}

#[test]
fn statements_run_to_their_end() {
    assert_eq!(execute_step(StatementStep::Done { changes: 3 }), Ok(StatementTurn::Finished(3)));
    assert_eq!(execute_step(StatementStep::Io), Ok(StatementTurn::StepIo));
    assert_eq!(execute_step(StatementStep::Row), Err(StatementError::UnexpectedRow));
    assert_eq!(execute_step(StatementStep::Busy), Err(StatementError::Locked));
    assert_eq!(execute_step(StatementStep::Interrupt), Err(StatementError::Interrupted));
}

#[test]
fn accepting_programs_are_queued_behind_the_others() {
    let mut runtime = Runtime::new();
    let client = runtime.serve(9);
    let accept = runtime.new_accept(1);
    assert_eq!(runtime.step(), RunTurn::Run { id: client, program: 9 });
    runtime.set(client, 9);
    runtime.queue(client);
    assert_eq!(runtime.step(), RunTurn::Run { id: accept, program: 1 });
    assert_eq!(runtime.step(), RunTurn::Run { id: client, program: 9 });
}

#[test]
fn storages_can_have_any_room() {
    let mut none = ProgramsStorage::new(0);
    assert_eq!(none.insert(1), 0);
    let mut large = ProgramsStorage::new(5000);
    assert_eq!(large.insert(1), 0);
}
