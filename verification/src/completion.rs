//! Completions: what the outside world was asked to do, and what came of it.

use vstd::prelude::*;

use crate::runtime::{queued, ProgramWaker, RuntimeInner, RuntimeView};

verus! {

/// How many bytes a socket address takes.
pub const SOCKADDR_LEN: u32 = 16;

/// A socket address.
#[derive(Debug, Clone, Copy)]
pub struct SockAddr {
    /// The address family.
    pub sa_family: u16,
    /// The address.
    pub sa_data: [u8; 14],
}

/// The runtime once the program of `waker` was woken.
pub open spec fn woken(v: RuntimeView, waker: ProgramWaker) -> RuntimeView {
    match waker.program() {
        Some(id) => queued(v, id),
        None => v,
    }
}

/// A connection that is to be accepted.
pub struct AcceptCompletion {
    waker: ProgramWaker,
    result: Option<i32>,
    addr: SockAddr,
    addrlen: u32,
}

impl AcceptCompletion {
    /// Who is woken.
    pub closed spec fn waker(&self) -> ProgramWaker {
        self.waker
    }

    /// What came of it so far.
    pub closed spec fn outcome(&self) -> Option<i32> {
        self.result
    }

    /// The address that connected.
    pub closed spec fn address(&self) -> SockAddr {
        self.addr
    }

    /// How many bytes the address takes.
    pub closed spec fn address_len(&self) -> u32 {
        self.addrlen
    }

    fn callback(&mut self, result: i32, runtime: &mut RuntimeInner)
        ensures
            final(self).outcome() == Some(result),
            final(self).waker() == old(self).waker(),
            final(self).address() == old(self).address(),
            final(self).address_len() == old(self).address_len(),
            final(runtime)@ == woken(old(runtime)@, old(self).waker()),
    {
        self.result = Some(result);
        self.waker.wake_by_ref(runtime);
    }

    pub fn result(&self) -> (result: Option<i32>)
        ensures
            result == self.outcome(),
    {
        self.result
    }

    /// Notes the address that connected.
    pub fn set_sockaddr(&mut self, addr: SockAddr, addrlen: u32)
        ensures
            final(self).address() == addr,
            final(self).address_len() == addrlen,
            final(self).outcome() == old(self).outcome(),
            final(self).waker() == old(self).waker(),
    {
        self.addr = addr;
        self.addrlen = addrlen;
    }

    pub fn sockaddr(&self) -> (addr: SockAddr)
        ensures
            addr == self.address(),
    {
        self.addr
    }

    pub fn addrlen(&self) -> (len: u32)
        ensures
            len == self.address_len(),
    {
        self.addrlen
    }
}

/// Bytes that are to be received.
pub struct RecvCompletion {
    is_complete: bool,
    waker: ProgramWaker,
    result: Option<i32>,
    buf: Vec<u8>,
    len: usize,
}

impl RecvCompletion {
    /// Who is woken.
    pub closed spec fn waker(&self) -> ProgramWaker {
        self.waker
    }

    /// Something came of it.
    pub closed spec fn complete(&self) -> bool {
        self.is_complete
    }

    /// What came of it so far.
    pub closed spec fn outcome(&self) -> Option<i32> {
        self.result
    }

    /// The bytes of the buffer.
    pub closed spec fn bytes(&self) -> Seq<u8> {
        self.buf@
    }

    /// How many bytes there is room for.
    pub closed spec fn room(&self) -> usize {
        self.len
    }

    fn callback(&mut self, result: i32, runtime: &mut RuntimeInner)
        ensures
            final(self).complete(),
            final(self).outcome() == Some(result),
            final(self).waker() == old(self).waker(),
            final(self).bytes() == old(self).bytes(),
            final(self).room() == old(self).room(),
            final(runtime)@ == woken(old(runtime)@, old(self).waker()),
    {
        self.is_complete = true;
        self.result = Some(result);
        self.waker.wake_by_ref(runtime);
    }

    /// Whether something came of it.
    pub fn is_complete(&self) -> (yes: bool)
        ensures
            yes == self.complete(),
    {
        self.is_complete
    }

    /// What came of it, once something did.
    pub fn result(&self) -> (result: Option<i32>)
        requires
            self.complete(),
        ensures
            result == self.outcome(),
    {
        self.result
    }

    /// The bytes that were received, once something came of it.
    pub fn buf(&self) -> (buf: &[u8])
        requires
            self.complete(),
        ensures
            buf@ == self.bytes(),
    {
        self.buf.as_slice()
    }

    /// The buffer to receive into.
    pub fn buf_mut(&mut self) -> (buf: &mut Vec<u8>)
        ensures
            buf@ == old(self).bytes(),
            final(self).bytes() == final(buf)@,
            final(self).complete() == old(self).complete(),
            final(self).outcome() == old(self).outcome(),
            final(self).waker() == old(self).waker(),
            final(self).room() == old(self).room(),
    {
        &mut self.buf
    }

    /// How many bytes there is room for.
    pub fn len(&self) -> (len: usize)
        ensures
            len == self.room(),
    {
        self.len
    }
}

/// Bytes that are to be sent.
pub struct SendCompletion {
    waker: ProgramWaker,
    result: Option<i32>,
    buf: Vec<u8>,
}

impl SendCompletion {
    /// Who is woken.
    pub closed spec fn waker(&self) -> ProgramWaker {
        self.waker
    }

    /// What came of it so far.
    pub closed spec fn outcome(&self) -> Option<i32> {
        self.result
    }

    /// The bytes of the buffer.
    pub closed spec fn bytes(&self) -> Seq<u8> {
        self.buf@
    }

    fn callback(&mut self, result: i32, runtime: &mut RuntimeInner)
        ensures
            final(self).outcome() == Some(result),
            final(self).waker() == old(self).waker(),
            final(self).bytes() == old(self).bytes(),
            final(runtime)@ == woken(old(runtime)@, old(self).waker()),
    {
        self.result = Some(result);
        self.waker.wake_by_ref(runtime);
    }

    pub fn result(&self) -> (result: Option<i32>)
        ensures
            result == self.outcome(),
    {
        self.result
    }

    /// The buffer to send from.
    pub fn buf_mut(&mut self) -> (buf: &mut Vec<u8>)
        ensures
            buf@ == old(self).bytes(),
            final(self).bytes() == final(buf)@,
            final(self).outcome() == old(self).outcome(),
            final(self).waker() == old(self).waker(),
    {
        &mut self.buf
    }
}

/// A completion that the application waits for.
pub enum AppCompletion {
    Accept(AcceptCompletion),
    Recv(RecvCompletion),
    Send(SendCompletion),
}

/// [`AppCompletion`], mathematically.
pub enum CompletionView {
    Accept { waker: ProgramWaker, result: Option<i32>, addr: SockAddr, addrlen: u32 },
    Recv { waker: ProgramWaker, complete: bool, result: Option<i32>, buf: Seq<u8>, len: usize },
    Send { waker: ProgramWaker, result: Option<i32>, buf: Seq<u8> },
}

impl View for AppCompletion {
    type V = CompletionView;

    open spec fn view(&self) -> CompletionView {
        match self {
            AppCompletion::Accept(c) => CompletionView::Accept {
                waker: c.waker(),
                result: c.outcome(),
                addr: c.address(),
                addrlen: c.address_len(),
            },
            AppCompletion::Recv(c) => CompletionView::Recv {
                waker: c.waker(),
                complete: c.complete(),
                result: c.outcome(),
                buf: c.bytes(),
                len: c.room(),
            },
            AppCompletion::Send(c) => CompletionView::Send {
                waker: c.waker(),
                result: c.outcome(),
                buf: c.bytes(),
            },
        }
    }
}

/// Who is woken.
pub open spec fn waker_of(v: CompletionView) -> ProgramWaker {
    match v {
        CompletionView::Accept { waker, .. } => waker,
        CompletionView::Recv { waker, .. } => waker,
        CompletionView::Send { waker, .. } => waker,
    }
}

/// The completion once `result` came of it.
pub open spec fn completed(v: CompletionView, result: i32) -> CompletionView {
    match v {
        CompletionView::Accept { waker, addr, addrlen, .. } => CompletionView::Accept {
            waker,
            result: Some(result),
            addr,
            addrlen,
        },
        CompletionView::Recv { waker, buf, len, .. } => CompletionView::Recv {
            waker,
            complete: true,
            result: Some(result),
            buf,
            len,
        },
        CompletionView::Send { waker, buf, .. } => CompletionView::Send {
            waker,
            result: Some(result),
            buf,
        },
    }
}

/// No address.
pub open spec fn no_addr(addr: SockAddr) -> bool {
    addr.sa_family == 0 && forall|i: int| 0 <= i < 14 ==> #[trigger] addr.sa_data@[i] == 0
}

impl AppCompletion {
    /// Asks for a connection to be accepted.
    pub fn new_accept(waker: ProgramWaker) -> (completion: Self)
        ensures
            completion@ matches CompletionView::Accept { waker: who, result, addr, addrlen } && {
                &&& who == waker
                &&& result is None
                &&& no_addr(addr)
                &&& addrlen == SOCKADDR_LEN
            },
    {
        let addr = SockAddr { sa_family: 0, sa_data: [0u8; 14] };
        AppCompletion::Accept(
            AcceptCompletion { waker, result: None, addr, addrlen: SOCKADDR_LEN },
        )
    }

    /// Asks for at most `len` bytes to be received.
    pub fn new_recv(waker: ProgramWaker, len: usize) -> (completion: Self)
        ensures
            completion@ == (CompletionView::Recv {
                waker,
                complete: false,
                result: None,
                buf: Seq::new(len as nat, |i: int| 0u8),
                len,
            }),
    {
        let buf: Vec<u8> = vec![0u8; len];
        assert(buf@ =~= Seq::new(len as nat, |i: int| 0u8));
        AppCompletion::Recv(
            RecvCompletion { is_complete: false, waker, result: None, buf, len },
        )
    }

    /// Asks for bytes to be sent.
    pub fn new_send(waker: ProgramWaker, buf: Vec<u8>) -> (completion: Self)
        ensures
            completion@ == (CompletionView::Send { waker, result: None, buf: buf@ }),
    {
        AppCompletion::Send(SendCompletion { waker, result: None, buf })
    }

    /// Notes what came of it, and wakes the program that waits for it.
    pub fn callback(&mut self, result: i32, runtime: &mut RuntimeInner)
        ensures
            final(self)@ == completed(old(self)@, result),
            final(runtime)@ == woken(old(runtime)@, waker_of(old(self)@)),
    {
        match self {
            AppCompletion::Accept(c) => c.callback(result, runtime),
            AppCompletion::Recv(c) => c.callback(result, runtime),
            AppCompletion::Send(c) => c.callback(result, runtime),
        }
    }
}

} // verus!
