//! The operations of the host, the handle types built on them, and the
//! decoding of the host's result word.
use vstd::prelude::*;
use vstd::slice::{slice_subrange, slice_to_vec};
use crate::syscall::{
    added, extends, first, is_request, lemma_extends_index, through_first, lemma_call, lemma_extends_trans, made, only_one, syscall,
    syscall0, Exception, Host, Request, Semihost, Shape, Syscall,
};

verus! {

/// The word with which the host reports a failure.
pub const FAILURE: usize = usize::MAX;

/// The bits of the mode in which a file is opened.
#[derive(Copy, Clone, PartialEq, Eq, Structural, Hash, Debug)]
pub struct Mode {
    bits: u32,
}

impl Mode {
    pub closed spec fn spec_bits(self) -> u32 {
        self.bits
    }

    /// Binary rather than text transfer.
    pub fn binary() -> (r: Mode)
        ensures
            r.spec_bits() == 1,
    {
        Mode { bits: 1 }
    }

    /// Reading only; the empty set of bits.
    pub fn read_only() -> (r: Mode)
        ensures
            r.spec_bits() == 0,
    {
        Mode { bits: 0 }
    }

    /// Reading and writing.
    pub fn read_write() -> (r: Mode)
        ensures
            r.spec_bits() == 4,
    {
        Mode { bits: 4 }
    }

    /// Writing at the end.
    pub fn append() -> (r: Mode)
        ensures
            r.spec_bits() == 8,
    {
        Mode { bits: 8 }
    }

    /// The mode with the bits of both.
    pub fn union(self, other: Mode) -> (r: Mode)
        ensures
            r.spec_bits() == self.spec_bits() | other.spec_bits(),
    {
        Mode { bits: self.bits | other.bits }
    }

    /// The number that the host receives.
    pub fn bits(self) -> (r: u32)
        ensures
            r == self.spec_bits(),
    {
        self.bits
    }
}

/// The detail that a failed call carries, chosen by the caller's error type.
pub trait Errno: Sized {
    /// Whether `detail` is the detail of a failure when the requests
    /// `before` grew to `after` in asking for it.
    spec fn detail(before: Seq<Request>, after: Seq<Request>, detail: Self) -> bool;

    /// The detail of the failure that the host has just reported.
    fn last_error<H: Semihost>(host: &mut Host<H>) -> (r: Self)
        ensures
            extends(old(host).requests(), final(host).requests()),
            Self::detail(old(host).requests(), final(host).requests(), r),
    ;
}

/// No detail: nothing more is asked of the host.
impl Errno for () {
    open spec fn detail(before: Seq<Request>, after: Seq<Request>, detail: ()) -> bool {
        after == before
    }

    fn last_error<H: Semihost>(host: &mut Host<H>) -> Self {
        proof {
            assert(host.requests().subrange(0, host.requests().len() as int) =~= host.requests());
        }
    }
}

/// The host's last error code, asked for with one Errno request whose
/// reply is the code.
impl Errno for isize {
    open spec fn detail(before: Seq<Request>, after: Seq<Request>, detail: isize) -> bool {
        &&& made(before, after)
        &&& only_one(before, after)
        &&& is_request(first(before, after), Syscall::Errno, Shape::Value, seq![], seq![])
        &&& first(before, after).message == 0
        &&& detail == first(before, after).reply as isize
    }

    fn last_error<H: Semihost>(host: &mut Host<H>) -> Self {
        errno::<H>(host)
    }
}

/// The host's code of the last error, as a signed value: one Errno request
/// with no argument, whose reply is the code.
pub fn errno<H: Semihost>(host: &mut Host<H>) -> (r: isize)
    ensures
        made(old(host).requests(), final(host).requests()),
        only_one(old(host).requests(), final(host).requests()),
        is_request(first(old(host).requests(), final(host).requests()), Syscall::Errno, Shape::Value, seq![], seq![]),
        first(old(host).requests(), final(host).requests()).message == 0,
        r == first(old(host).requests(), final(host).requests()).reply as isize,
{
    let raw = host.trap(Syscall::Errno, 0);
    proof {
        lemma_call(old(host).requests(), host.requests(), host.requests());
    }
    raw as isize
}

/// A result word is a success unless it is the failure word; a success
/// carries the word itself.
pub open spec fn decoded(raw: usize) -> Option<usize> {
    if raw == FAILURE {
        None
    } else {
        Some(raw)
    }
}

/// Turns the host's result word into a result: the failure word gives the
/// error detail of `E`, any other word is the value, and then the host is
/// not asked anything more.
pub fn map_res<H: Semihost, E: Errno>(host: &mut Host<H>, raw: usize) -> (r: Result<usize, E>)
    ensures
        r is Ok <==> decoded(raw) is Some,
        r is Ok ==> decoded(raw) == Some(r->Ok_0),
        r is Ok ==> final(host).requests() == old(host).requests(),
        r is Err ==> E::detail(old(host).requests(), final(host).requests(), r->Err_0),
        extends(old(host).requests(), final(host).requests()),
{
    if raw == FAILURE {
        Err(E::last_error::<H>(host))
    } else {
        proof {
            assert(host.requests().subrange(0, host.requests().len() as int) =~= host.requests());
        }
        Ok(raw)
    }
}

/// A C string: at least one byte, the last one zero, and no other zero.
pub open spec fn is_c_str(s: Seq<u8>) -> bool {
    &&& s.len() > 0
    &&& s.last() == 0
    &&& forall|i: int| 0 <= i < s.len() - 1 ==> s[i] != 0
}

/// Why `open` failed.
#[derive(Copy, Clone, Debug)]
pub enum OpenError<E> {
    /// The host reported a failure.
    Io(E),
    /// The host answered with descriptor zero, which it never hands out.
    Invalid,
}

/// What `open` makes of a reply: the descriptor, or why there is none.
pub open spec fn opened(raw: usize) -> Result<usize, Option<()>> {
    if raw == FAILURE {
        Err(None)
    } else if raw == 0 {
        Err(Some(()))
    } else {
        Ok(raw)
    }
}

/// Decodes the result word of `open`: the failure word gives the error
/// detail, zero is an invalid reply (no detail is asked for), any other
/// word is the descriptor.
pub fn open_result<H: Semihost, E: Errno>(host: &mut Host<H>, raw: usize) -> (r: Result<usize, OpenError<E>>)
    ensures
        r is Ok <==> opened(raw) is Ok,
        r is Ok ==> r->Ok_0 == raw,
        r matches Err(OpenError::Invalid) <==> raw == 0,
        r matches Err(OpenError::Io(_)) <==> raw == FAILURE,
        raw != FAILURE ==> final(host).requests() == old(host).requests(),
        r matches Err(OpenError::Io(e)) ==> E::detail(old(host).requests(), final(host).requests(), e),
        extends(old(host).requests(), final(host).requests()),
{
    if raw == FAILURE {
        Err(OpenError::Io(E::last_error::<H>(host)))
    } else {
        proof {
            assert(host.requests().subrange(0, host.requests().len() as int) =~= host.requests());
        }
        if raw == 0 {
            Err(OpenError::Invalid)
        } else {
            Ok(raw)
        }
    }
}

/// The Open request for the C string `path` in the mode with `mode_bits`.
pub open spec fn is_open_request(q: Request, path: Seq<u8>, mode_bits: u32) -> bool {
    is_request(q, Syscall::Open, Shape::Send(0), seq![0usize, mode_bits as usize, (path.len() - 1) as usize], path)
}

/// Opens the file named by the C string `path` in `mode`: one Open request,
/// whose reply `open_result` decodes.
pub fn open<H: Semihost, E: Errno>(host: &mut Host<H>, path: &[u8], mode: Mode) -> (r: Result<usize, OpenError<E>>)
    requires
        is_c_str(path@),
    ensures
        made(old(host).requests(), final(host).requests()),
        is_open_request(first(old(host).requests(), final(host).requests()), path@, mode.spec_bits()),
        r is Ok <==> opened(first(old(host).requests(), final(host).requests()).reply) is Ok,
        r is Ok ==> r->Ok_0 == first(old(host).requests(), final(host).requests()).reply,
        !(r matches Err(OpenError::Io(_))) ==> only_one(old(host).requests(), final(host).requests()),
        r matches Err(OpenError::Invalid) <==> first(old(host).requests(), final(host).requests()).reply == 0,
        r matches Err(OpenError::Io(e)) ==> first(old(host).requests(), final(host).requests()).reply == FAILURE
            && E::detail(through_first(old(host).requests(), final(host).requests()), final(host).requests(), e),
{
    let len = path.len() - 1;
    let mut block = vec![0usize, mode.bits() as usize, len];
    let raw = host.trap_send(Syscall::Open, block.as_mut_slice(), 0, path);
    let ghost mid = host.requests();
    let r = open_result::<H, E>(host, raw);
    proof {
        lemma_call(old(host).requests(), mid, host.requests());
    }
    r
}

/// Reads into `data` from `fd`, giving the number of bytes that were not
/// read: zero when `data` was filled.
pub fn read<H: Semihost, E: Errno>(host: &mut Host<H>, fd: usize, data: &mut [u8]) -> (r: Result<usize, E>)
    ensures
        made(old(host).requests(), final(host).requests()),
        is_request(first(old(host).requests(), final(host).requests()), Syscall::Read, Shape::Receive(1), seq![fd, 0usize, old(data)@.len() as usize], old(data)@),
        r is Ok <==> first(old(host).requests(), final(host).requests()).reply != FAILURE,
        r is Ok ==> only_one(old(host).requests(), final(host).requests()),
        r is Err ==> E::detail(through_first(old(host).requests(), final(host).requests()), final(host).requests(), r->Err_0),
        r is Ok ==> r->Ok_0 == first(old(host).requests(), final(host).requests()).reply,
        final(data)@ == first(old(host).requests(), final(host).requests()).data_after,
{
    let mut block = vec![fd, 0usize, data.len()];
    let raw = host.trap_receive(Syscall::Read, block.as_mut_slice(), 1, data);
    let ghost mid = host.requests();
    let r = map_res::<H, E>(host, raw);
    proof {
        lemma_call(old(host).requests(), mid, host.requests());
    }
    r
}

/// The Write request of `data` to `fd`.
pub open spec fn is_write_request(q: Request, fd: usize, data: Seq<u8>) -> bool {
    is_request(q, Syscall::Write, Shape::Send(1), seq![fd, 0usize, data.len() as usize], data)
}

/// Writes `data` to `fd`, giving the number of bytes that were not written:
/// zero when all were.
pub fn write<H: Semihost, E: Errno>(host: &mut Host<H>, fd: usize, data: &[u8]) -> (r: Result<usize, E>)
    ensures
        made(old(host).requests(), final(host).requests()),
        is_write_request(first(old(host).requests(), final(host).requests()), fd, data@),
        r is Ok <==> first(old(host).requests(), final(host).requests()).reply != FAILURE,
        r is Ok ==> only_one(old(host).requests(), final(host).requests()),
        r is Err ==> E::detail(through_first(old(host).requests(), final(host).requests()), final(host).requests(), r->Err_0),
        r is Ok ==> r->Ok_0 == first(old(host).requests(), final(host).requests()).reply,
{
    let mut block = vec![fd, 0usize, data.len()];
    let raw = host.trap_send(Syscall::Write, block.as_mut_slice(), 1, data);
    let ghost mid = host.requests();
    let r = map_res::<H, E>(host, raw);
    proof {
        lemma_call(old(host).requests(), mid, host.requests());
    }
    r
}

/// Moves the position of `fd` to `offset` from the start. The offset must
/// not lie beyond the end of the file: the host leaves that undefined.
pub fn seek<H: Semihost, E: Errno>(host: &mut Host<H>, fd: usize, offset: usize) -> (r: Result<(), E>)
    ensures
        made(old(host).requests(), final(host).requests()),
        is_request(first(old(host).requests(), final(host).requests()), Syscall::Seek, Shape::Block, seq![fd, offset], seq![]),
        r is Ok <==> first(old(host).requests(), final(host).requests()).reply != FAILURE,
        r is Ok ==> only_one(old(host).requests(), final(host).requests()),
        r is Err ==> E::detail(through_first(old(host).requests(), final(host).requests()), final(host).requests(), r->Err_0),
{
    let mut block = vec![fd, offset];
    let raw = host.trap_block(Syscall::Seek, block.as_mut_slice());
    let ghost mid = host.requests();
    let r = map_res::<H, E>(host, raw);
    proof {
        lemma_call(old(host).requests(), mid, host.requests());
    }
    match r {
        Ok(_) => Ok(()),
        Err(e) => Err(e),
    }
}

/// The length of the file `fd` in bytes.
pub fn f_len<H: Semihost, E: Errno>(host: &mut Host<H>, fd: usize) -> (r: Result<usize, E>)
    ensures
        made(old(host).requests(), final(host).requests()),
        is_request(first(old(host).requests(), final(host).requests()), Syscall::FLen, Shape::Block, seq![fd], seq![]),
        r is Ok <==> first(old(host).requests(), final(host).requests()).reply != FAILURE,
        r is Ok ==> only_one(old(host).requests(), final(host).requests()),
        r is Err ==> E::detail(through_first(old(host).requests(), final(host).requests()), final(host).requests(), r->Err_0),
        r is Ok ==> r->Ok_0 == first(old(host).requests(), final(host).requests()).reply,
{
    let mut block = vec![fd];
    proof {
        assert(block@ =~= seq![fd]);
    }
    let raw = host.trap_block(Syscall::FLen, block.as_mut_slice());
    let ghost mid = host.requests();
    let r = map_res::<H, E>(host, raw);
    proof {
        lemma_call(old(host).requests(), mid, host.requests());
    }
    r
}

/// Closes `fd`.
pub fn close<H: Semihost, E: Errno>(host: &mut Host<H>, fd: usize) -> (r: Result<(), E>)
    ensures
        made(old(host).requests(), final(host).requests()),
        is_request(first(old(host).requests(), final(host).requests()), Syscall::Close, Shape::Block, seq![fd], seq![]),
        r is Ok <==> first(old(host).requests(), final(host).requests()).reply != FAILURE,
        r is Ok ==> only_one(old(host).requests(), final(host).requests()),
        r is Err ==> E::detail(through_first(old(host).requests(), final(host).requests()), final(host).requests(), r->Err_0),
{
    let mut block = vec![fd];
    proof {
        assert(block@ =~= seq![fd]);
    }
    let raw = host.trap_block(Syscall::Close, block.as_mut_slice());
    let ghost mid = host.requests();
    let r = map_res::<H, E>(host, raw);
    proof {
        lemma_call(old(host).requests(), mid, host.requests());
    }
    match r {
        Ok(_) => Ok(()),
        Err(e) => Err(e),
    }
}

/// Decodes the result word of `is_tty`: only one means a terminal. The host
/// answers zero both for "not a terminal" and for a failure, so every other
/// word is an error.
pub fn tty_result<H: Semihost, E: Errno>(host: &mut Host<H>, raw: usize) -> (r: Result<(), E>)
    ensures
        r is Ok <==> raw == 1,
        r is Ok ==> final(host).requests() == old(host).requests(),
        r is Err ==> E::detail(old(host).requests(), final(host).requests(), r->Err_0),
        extends(old(host).requests(), final(host).requests()),
{
    if raw == 1 {
        proof {
            assert(host.requests().subrange(0, host.requests().len() as int) =~= host.requests());
        }
        Ok(())
    } else {
        Err(E::last_error::<H>(host))
    }
}

/// Whether `fd` is an interactive terminal: `Ok` when it is.
pub fn is_tty<H: Semihost, E: Errno>(host: &mut Host<H>, fd: usize) -> (r: Result<(), E>)
    ensures
        made(old(host).requests(), final(host).requests()),
        is_request(first(old(host).requests(), final(host).requests()), Syscall::IsTTY, Shape::Block, seq![fd], seq![]),
        r is Ok <==> first(old(host).requests(), final(host).requests()).reply == 1,
        r is Ok ==> only_one(old(host).requests(), final(host).requests()),
        r is Err ==> E::detail(through_first(old(host).requests(), final(host).requests()), final(host).requests(), r->Err_0),
{
    let mut block = vec![fd];
    proof {
        assert(block@ =~= seq![fd]);
    }
    let raw = host.trap_block(Syscall::IsTTY, block.as_mut_slice());
    let ghost mid = host.requests();
    let r = tty_result::<H, E>(host, raw);
    proof {
        lemma_call(old(host).requests(), mid, host.requests());
    }
    r
}

/// A handle to a file that the host has opened: a descriptor other than
/// zero. It does not close the file by itself.
#[derive(Copy, Clone, Debug)]
pub struct Handle {
    fd: usize,
}

impl Handle {
    #[verifier::type_invariant]
    spec fn inv(self) -> bool {
        self.fd != 0
    }

    pub closed spec fn spec_fd(self) -> usize {
        self.fd
    }

    /// Opens the file named by the C string `path` in `mode`.
    pub fn open<H: Semihost, E: Errno>(host: &mut Host<H>, path: &[u8], mode: Mode) -> (r: Result<Handle, OpenError<E>>)
        requires
            is_c_str(path@),
        ensures
            made(old(host).requests(), final(host).requests()),
            is_open_request(first(old(host).requests(), final(host).requests()), path@, mode.spec_bits()),
            r is Ok <==> opened(first(old(host).requests(), final(host).requests()).reply) is Ok,
            r is Ok ==> r->Ok_0.spec_fd() == first(old(host).requests(), final(host).requests()).reply,
            !(r matches Err(OpenError::Io(_))) ==> only_one(old(host).requests(), final(host).requests()),
            r matches Err(OpenError::Invalid) <==> first(old(host).requests(), final(host).requests()).reply == 0,
            r matches Err(OpenError::Io(e)) ==> first(old(host).requests(), final(host).requests()).reply == FAILURE
                && E::detail(through_first(old(host).requests(), final(host).requests()), final(host).requests(), e),
    {
        match open::<H, E>(host, path, mode) {
            Ok(fd) => Ok(Handle::from_fd(fd)),
            Err(e) => Err(e),
        }
    }

    /// The handle of the descriptor `fd`, which the caller knows to be open.
    pub fn from_fd(fd: usize) -> (r: Handle)
        requires
            fd != 0,
        ensures
            r.spec_fd() == fd,
    {
        Handle { fd }
    }

    /// The descriptor, which is never zero.
    pub fn fd(&self) -> (r: usize)
        ensures
            r == self.spec_fd(),
            r != 0,
    {
        proof {
            use_type_invariant(self);
        }
        self.fd
    }

    /// Moves the position to `offset` from the start of the file.
    pub fn seek_set<H: Semihost, E: Errno>(&self, host: &mut Host<H>, offset: usize) -> (r: Result<(), E>)
        ensures
            made(old(host).requests(), final(host).requests()),
            is_request(first(old(host).requests(), final(host).requests()), Syscall::Seek, Shape::Block, seq![self.spec_fd(), offset], seq![]),
            r is Ok <==> first(old(host).requests(), final(host).requests()).reply != FAILURE,
            r is Ok ==> only_one(old(host).requests(), final(host).requests()),
            r is Err ==> E::detail(through_first(old(host).requests(), final(host).requests()), final(host).requests(), r->Err_0),
    {
        seek::<H, E>(host, self.fd, offset)
    }

    /// Closes the file; the handle is consumed.
    pub fn close<H: Semihost, E: Errno>(self, host: &mut Host<H>) -> (r: Result<(), E>)
        ensures
            made(old(host).requests(), final(host).requests()),
            is_request(first(old(host).requests(), final(host).requests()), Syscall::Close, Shape::Block, seq![self.spec_fd()], seq![]),
            r is Ok <==> first(old(host).requests(), final(host).requests()).reply != FAILURE,
            r is Ok ==> only_one(old(host).requests(), final(host).requests()),
            r is Err ==> E::detail(through_first(old(host).requests(), final(host).requests()), final(host).requests(), r->Err_0),
    {
        close::<H, E>(host, self.fd)
    }

    /// Writes `data`, giving the number of bytes that were not written.
    pub fn write<H: Semihost, E: Errno>(&self, host: &mut Host<H>, data: &[u8]) -> (r: Result<usize, E>)
        ensures
            made(old(host).requests(), final(host).requests()),
            is_write_request(first(old(host).requests(), final(host).requests()), self.spec_fd(), data@),
            r is Ok <==> first(old(host).requests(), final(host).requests()).reply != FAILURE,
            r is Ok ==> only_one(old(host).requests(), final(host).requests()),
            r is Err ==> E::detail(through_first(old(host).requests(), final(host).requests()), final(host).requests(), r->Err_0),
            r is Ok ==> r->Ok_0 == first(old(host).requests(), final(host).requests()).reply,
    {
        write::<H, E>(host, self.fd, data)
    }

    /// Reads into `data`, giving the number of bytes that were not read.
    pub fn read<H: Semihost, E: Errno>(&self, host: &mut Host<H>, data: &mut [u8]) -> (r: Result<usize, E>)
        ensures
            made(old(host).requests(), final(host).requests()),
            is_request(first(old(host).requests(), final(host).requests()), Syscall::Read, Shape::Receive(1), seq![self.spec_fd(), 0usize, old(data)@.len() as usize], old(data)@),
            r is Ok <==> first(old(host).requests(), final(host).requests()).reply != FAILURE,
            r is Ok ==> only_one(old(host).requests(), final(host).requests()),
            r is Err ==> E::detail(through_first(old(host).requests(), final(host).requests()), final(host).requests(), r->Err_0),
            r is Ok ==> r->Ok_0 == first(old(host).requests(), final(host).requests()).reply,
            final(data)@ == first(old(host).requests(), final(host).requests()).data_after,
    {
        read::<H, E>(host, self.fd, data)
    }
}

/// Why `write_all` stopped short.
#[derive(Copy, Clone, Debug)]
pub enum WriteAllError<E> {
    /// The host reported a failure.
    Io(E),
    /// The host took none of the bytes offered; this many were left.
    Incomplete(usize),
    /// The host claimed that more bytes were left than were offered.
    Invalid,
}

/// What `write_all` does after a write of `remaining` bytes left `left` of
/// them unwritten.
#[derive(Copy, Clone, PartialEq, Eq, Structural, Debug)]
pub enum WriteStep {
    /// Everything was written.
    Done,
    /// Nothing was written: stop, rather than ask again.
    Stalled,
    /// The reply is larger than the request.
    Invalid,
    /// This many bytes were written; write the rest.
    Advance(usize),
}

pub open spec fn write_step(remaining: nat, left: nat) -> WriteStep {
    if left == 0 {
        WriteStep::Done
    } else if left == remaining {
        WriteStep::Stalled
    } else if left > remaining {
        WriteStep::Invalid
    } else {
        WriteStep::Advance((remaining - left) as usize)
    }
}

/// Decides the step of `write_all` after a reply of `left` to a write of
/// `remaining` bytes.
pub fn next_write_step(remaining: usize, left: usize) -> (r: WriteStep)
    ensures
        r == write_step(remaining as nat, left as nat),
        r matches WriteStep::Advance(n) ==> 0 < n < remaining,
{
    if left == 0 {
        WriteStep::Done
    } else if left == remaining {
        WriteStep::Stalled
    } else if left > remaining {
        WriteStep::Invalid
    } else {
        WriteStep::Advance(remaining - left)
    }
}

/// Whether the requests of `log` from index `at` on are those that
/// `write_all` of `rest` to `fd` makes, and `r` is what it returns: a Write
/// of `rest`; then, as its reply decides, nothing more, the requests of the
/// error detail, or `write_all` of what the host left unwritten.
pub open spec fn write_all_trace<E: Errno>(
    fd: usize,
    rest: Seq<u8>,
    log: Seq<Request>,
    at: int,
    r: Result<(), WriteAllError<E>>,
) -> bool
    decreases rest.len(),
{
    if rest.len() == 0 {
        at == log.len() && r is Ok
    } else if !(0 <= at < log.len()) {
        false
    } else {
        let q = log[at];
        &&& is_write_request(q, fd, rest)
        &&& if q.reply == FAILURE {
            match r {
                Err(WriteAllError::Io(e)) => E::detail(log.subrange(0, at + 1), log, e),
                _ => false,
            }
        } else {
            match write_step(rest.len(), q.reply as nat) {
                WriteStep::Done => at + 1 == log.len() && r is Ok,
                WriteStep::Stalled => at + 1 == log.len() && match r {
                    Err(WriteAllError::Incomplete(n)) => n == q.reply,
                    _ => false,
                },
                WriteStep::Invalid => at + 1 == log.len() && r matches Err(WriteAllError::Invalid),
                WriteStep::Advance(n) => 0 < n < rest.len() && write_all_trace(
                    fd,
                    rest.subrange(n as int, rest.len() as int),
                    log,
                    at + 1,
                    r,
                ),
            }
        }
    }
}

impl Handle {
    /// Writes all of `data`, writing again what the host left unwritten,
    /// until all is written, the host takes nothing, or its reply makes no
    /// sense. The requests it makes, and what it returns, are exactly those
    /// of `write_all_trace`.
    pub fn write_all<H: Semihost, E: Errno>(&self, host: &mut Host<H>, data: &[u8]) -> (r: Result<(), WriteAllError<E>>)
        ensures
            extends(old(host).requests(), final(host).requests()),
            write_all_trace(self.spec_fd(), data@, final(host).requests(), old(host).requests().len() as int, r),
            data@.len() == 0 ==> *final(host) == *old(host) && r is Ok,
    {
        if data.len() == 0 {
            proof {
                assert(host.requests().subrange(0, host.requests().len() as int) =~= host.requests());
            }
            return Ok(());
        }
        let ghost start = host.requests();
        let ghost fd = self.spec_fd();
        let mut offset: usize = 0;
        proof {
            assert(data@.subrange(0, data@.len() as int) =~= data@);
            assert(host.requests().subrange(0, start.len() as int) =~= start);
        }
        while offset < data.len()
            invariant
                start == old(host).requests(),
                fd == self.spec_fd(),
                offset < data@.len(),
                extends(start, host.requests()),
                forall|log: Seq<Request>, r: Result<(), WriteAllError<E>>|
                    extends(host.requests(), log) && write_all_trace(
                        fd,
                        data@.subrange(offset as int, data@.len() as int),
                        log,
                        host.requests().len() as int,
                        r,
                    ) ==> #[trigger] write_all_trace(fd, data@, log, start.len() as int, r),
            decreases data@.len() - offset,
        {
            let rest = slice_subrange(data, offset, data.len());
            let ghost log0 = host.requests();
            let reply = self.write::<H, E>(host, rest);
            let ghost q = first(log0, host.requests());
            proof {
                lemma_extends_trans(start, log0, host.requests());
            }
            let left = match reply {
                Ok(left) => left,
                Err(e) => {
                    proof {
                        let a = host.requests();
                        assert(a.subrange(0, log0.len() as int + 1) =~= log0.push(q));
                        assert(write_all_trace(fd, rest@, a, log0.len() as int, Err::<(), WriteAllError<E>>(WriteAllError::Io(e))));
                    }
                    return Err(WriteAllError::Io(e));
                },
            };
            match next_write_step(rest.len(), left) {
                WriteStep::Done => {
                    proof {
                        assert(write_all_trace(fd, rest@, host.requests(), log0.len() as int, Ok::<(), WriteAllError<E>>(())));
                    }
                    return Ok(());
                },
                WriteStep::Stalled => {
                    proof {
                        assert(write_all_trace(fd, rest@, host.requests(), log0.len() as int, Err::<(), WriteAllError<E>>(WriteAllError::Incomplete(left))));
                    }
                    return Err(WriteAllError::Incomplete(left));
                },
                WriteStep::Invalid => {
                    proof {
                        assert(write_all_trace(fd, rest@, host.requests(), log0.len() as int, Err::<(), WriteAllError<E>>(WriteAllError::Invalid)));
                    }
                    return Err(WriteAllError::Invalid);
                },
                WriteStep::Advance(n) => {
                    proof {
                        let l1 = host.requests();
                        let next = data@.subrange((offset + n) as int, data@.len() as int);
                        assert(rest@.subrange(n as int, rest@.len() as int) =~= next);
                        assert forall|log: Seq<Request>, r: Result<(), WriteAllError<E>>|
                            extends(l1, log) && write_all_trace(fd, next, log, l1.len() as int, r)
                            implies #[trigger] write_all_trace(fd, data@, log, start.len() as int, r) by {
                            lemma_extends_trans(log0, l1, log);
                            assert(log[log0.len() as int] == l1[log0.len() as int]);
                            assert(write_all_trace(fd, rest@, log, log0.len() as int, r));
                        }
                    }
                    offset = offset + n;
                },
            }
        }
        Ok(())
    }
}

/// The reply of a host that takes at most `k` bytes of each write: the
/// number of bytes left unwritten.
pub open spec fn chunk_reply(remaining: nat, k: nat) -> nat {
    if remaining <= k {
        0
    } else {
        (remaining - k) as nat
    }
}

/// Every request of `reqs` was answered as a host that takes at most `k`
/// bytes of each write answers.
pub open spec fn chunked_replies(reqs: Seq<Request>, k: nat) -> bool {
    forall|i: int| 0 <= i < reqs.len() ==> #[trigger] reqs[i].reply as nat == chunk_reply(reqs[i].data.len(), k)
}

/// The bytes that the host took from the writes `reqs`, in order.
pub open spec fn accepted(reqs: Seq<Request>) -> Seq<u8>
    decreases reqs.len(),
{
    if reqs.len() == 0 {
        Seq::empty()
    } else {
        let q = reqs[0];
        q.data.subrange(0, q.data.len() - q.reply) + accepted(reqs.drop_first())
    }
}

/// Against a host that takes at most `k` bytes of each write, `write_all` of
/// a buffer succeeds after as many writes as `k` goes into its length,
/// rounded up, and the host receives the buffer whole and in order.
pub proof fn lemma_write_all_in_chunks<E: Errno>(
    fd: usize,
    buf: Seq<u8>,
    k: nat,
    log: Seq<Request>,
    at: int,
    r: Result<(), WriteAllError<E>>,
)
    requires
        0 < k <= buf.len(),
        buf.len() <= usize::MAX,
        0 <= at <= log.len(),
        write_all_trace(fd, buf, log, at, r),
        chunked_replies(log.subrange(at, log.len() as int), k),
    ensures
        r is Ok,
        log.len() - at == (buf.len() + k - 1) / k as int,
        accepted(log.subrange(at, log.len() as int)) == buf,
{
    lemma_chunks_any_length(fd, buf, k, log, at, r);
}

proof fn lemma_chunks_any_length<E: Errno>(
    fd: usize,
    buf: Seq<u8>,
    k: nat,
    log: Seq<Request>,
    at: int,
    r: Result<(), WriteAllError<E>>,
)
    requires
        0 < k,
        buf.len() <= usize::MAX,
        0 <= at <= log.len(),
        write_all_trace(fd, buf, log, at, r),
        chunked_replies(log.subrange(at, log.len() as int), k),
    ensures
        r is Ok,
        log.len() - at == (buf.len() + k - 1) / k as int,
        accepted(log.subrange(at, log.len() as int)) == buf,
    decreases buf.len(),
{
    let n = buf.len();
    let reqs = log.subrange(at, log.len() as int);
    if n == 0 {
        assert((k - 1) / k as int == 0) by (nonlinear_arith)
            requires
                k > 0,
        ;
        assert(reqs =~= Seq::<Request>::empty());
    } else {
        let q = log[at];
        assert(reqs[0] == q);
        assert(q.reply as nat == chunk_reply(q.data.len(), k));
        assert(q.data == buf);
        if n <= k {
            assert((n + k - 1) / k as int == 1) by (nonlinear_arith)
                requires
                    0 < n <= k,
            ;
            assert(q.reply == 0);
            assert(reqs.drop_first() =~= Seq::<Request>::empty());
            assert(accepted(reqs.drop_first()) =~= Seq::<u8>::empty());
            assert(q.data.subrange(0, q.data.len() - q.reply) =~= buf);
            assert(accepted(reqs) =~= buf);
        } else {
            let rest = buf.subrange(k as int, n as int);
            let tail = log.subrange(at + 1, log.len() as int);
            assert(tail =~= reqs.drop_first());
            assert forall|i: int| 0 <= i < tail.len() implies #[trigger] tail[i].reply as nat == chunk_reply(tail[i].data.len(), k) by {
                assert(tail[i] == reqs[i + 1]);
            }
            lemma_chunks_any_length(fd, rest, k, log, at + 1, r);
            assert((n + k - 1) / k as int == (n - k + k - 1) / k as int + 1) by (nonlinear_arith)
                requires
                    k > 0,
                    n > k,
            ;
            assert(q.data.subrange(0, q.data.len() - q.reply) + rest =~= buf);
        }
    }
}

/// Wherever `write_all` stands in its loop, a reply that leaves every byte
/// of the remaining `rest` unwritten ends it as incomplete by that many
/// bytes, with that write its last request. (No buffer of bytes is as long
/// as the failure word.)
pub proof fn lemma_stalled_write_stops<E: Errno>(
    fd: usize,
    rest: Seq<u8>,
    log: Seq<Request>,
    at: int,
    r: Result<(), WriteAllError<E>>,
)
    requires
        write_all_trace(fd, rest, log, at, r),
        0 < rest.len() < usize::MAX,
        0 <= at < log.len(),
        log[at].reply == rest.len(),
    ensures
        at + 1 == log.len(),
        r matches Err(WriteAllError::Incomplete(n)) && n == rest.len(),
{
}

/// Wherever `write_all` stands in its loop, a reply that claims more bytes
/// unwritten than remain ends it as invalid, with that write its last
/// request.
pub proof fn lemma_oversized_reply_invalid<E: Errno>(
    fd: usize,
    rest: Seq<u8>,
    log: Seq<Request>,
    at: int,
    r: Result<(), WriteAllError<E>>,
)
    requires
        write_all_trace(fd, rest, log, at, r),
        0 <= at < log.len(),
        log[at].reply > rest.len(),
        log[at].reply != FAILURE,
    ensures
        at + 1 == log.len(),
        r matches Err(WriteAllError::Invalid),
{
}

/// Runs the C string `cmd` as a command on the host, giving its status.
pub fn system<H: Semihost, E: Errno>(host: &mut Host<H>, cmd: &[u8]) -> (r: Result<usize, E>)
    requires
        is_c_str(cmd@),
    ensures
        made(old(host).requests(), final(host).requests()),
        is_request(first(old(host).requests(), final(host).requests()), Syscall::System, Shape::Send(0), seq![0usize, (cmd@.len() - 1) as usize], cmd@),
        r is Ok <==> first(old(host).requests(), final(host).requests()).reply != FAILURE,
        r is Ok ==> only_one(old(host).requests(), final(host).requests()),
        r is Err ==> E::detail(through_first(old(host).requests(), final(host).requests()), final(host).requests(), r->Err_0),
        r is Ok ==> r->Ok_0 == first(old(host).requests(), final(host).requests()).reply,
{
    let mut block = vec![0usize, cmd.len() - 1];
    let raw = host.trap_send(Syscall::System, block.as_mut_slice(), 0, cmd);
    let ghost mid = host.requests();
    let r = map_res::<H, E>(host, raw);
    proof {
        lemma_call(old(host).requests(), mid, host.requests());
    }
    r
}

/// Asks the host for a temporary file name for `id` in `buffer`, which must
/// be long enough for the host's names.
pub fn tmpnam<H: Semihost>(host: &mut Host<H>, id: u8, buffer: &mut [u8]) -> (r: Result<(), ()>)
    ensures
        made(old(host).requests(), final(host).requests()),
        is_request(first(old(host).requests(), final(host).requests()), Syscall::TmpNam, Shape::Receive(0), seq![0usize, id as usize, old(buffer)@.len() as usize], old(buffer)@),
        r is Ok <==> first(old(host).requests(), final(host).requests()).reply != FAILURE,
        only_one(old(host).requests(), final(host).requests()),
        final(buffer)@ == first(old(host).requests(), final(host).requests()).data_after,
{
    let mut block = vec![0usize, id as usize, buffer.len()];
    let raw = host.trap_receive(Syscall::TmpNam, block.as_mut_slice(), 0, buffer);
    let ghost mid = host.requests();
    let r = map_res::<H, ()>(host, raw);
    proof {
        lemma_call(old(host).requests(), mid, host.requests());
    }
    match r {
        Ok(_) => Ok(()),
        Err(e) => Err(e),
    }
}

/// Deletes the file named by the C string `path`.
pub fn remove<H: Semihost, E: Errno>(host: &mut Host<H>, path: &[u8]) -> (r: Result<usize, E>)
    requires
        is_c_str(path@),
    ensures
        made(old(host).requests(), final(host).requests()),
        is_request(first(old(host).requests(), final(host).requests()), Syscall::Remove, Shape::Send(0), seq![0usize, (path@.len() - 1) as usize], path@),
        r is Ok <==> first(old(host).requests(), final(host).requests()).reply != FAILURE,
        r is Ok ==> only_one(old(host).requests(), final(host).requests()),
        r is Err ==> E::detail(through_first(old(host).requests(), final(host).requests()), final(host).requests(), r->Err_0),
        r is Ok ==> r->Ok_0 == first(old(host).requests(), final(host).requests()).reply,
{
    let mut block = vec![0usize, path.len() - 1];
    let raw = host.trap_send(Syscall::Remove, block.as_mut_slice(), 0, path);
    let ghost mid = host.requests();
    let r = map_res::<H, E>(host, raw);
    proof {
        lemma_call(old(host).requests(), mid, host.requests());
    }
    r
}

/// Renames the file named by the C string `src` to the C string `dest`.
pub fn rename<H: Semihost, E: Errno>(host: &mut Host<H>, src: &[u8], dest: &[u8]) -> (r: Result<usize, E>)
    requires
        is_c_str(src@),
        is_c_str(dest@),
    ensures
        made(old(host).requests(), final(host).requests()),
        is_request(first(old(host).requests(), final(host).requests()), Syscall::Rename, Shape::SendTwo, seq![0usize, (src@.len() - 1) as usize, 0usize, (dest@.len() - 1) as usize], src@),
        r is Ok <==> first(old(host).requests(), final(host).requests()).reply != FAILURE,
        r is Ok ==> only_one(old(host).requests(), final(host).requests()),
        r is Err ==> E::detail(through_first(old(host).requests(), final(host).requests()), final(host).requests(), r->Err_0),
        r is Ok ==> r->Ok_0 == first(old(host).requests(), final(host).requests()).reply,
        first(old(host).requests(), final(host).requests()).second == dest@,
{
    let mut block = vec![0usize, src.len() - 1, 0usize, dest.len() - 1];
    let raw = host.trap_send_two(Syscall::Rename, block.as_mut_slice(), src, dest);
    let ghost mid = host.requests();
    let r = map_res::<H, E>(host, raw);
    proof {
        lemma_call(old(host).requests(), mid, host.requests());
    }
    r
}

/// Seconds since the Unix epoch, as the host counts them: the reply of one
/// Time request.
pub fn time<H: Semihost>(host: &mut Host<H>) -> (r: usize)
    ensures
        made(old(host).requests(), final(host).requests()),
        only_one(old(host).requests(), final(host).requests()),
        first(old(host).requests(), final(host).requests()).op == Syscall::Time,
        first(old(host).requests(), final(host).requests()).message == 0,
        r == first(old(host).requests(), final(host).requests()).reply,
{
    syscall0(host, Syscall::Time)
}

/// Hundredths of a second since the program started.
pub fn clock<H: Semihost>(host: &mut Host<H>) -> (r: Result<usize, ()>)
    ensures
        made(old(host).requests(), final(host).requests()),
        first(old(host).requests(), final(host).requests()).op == Syscall::Clock,
        first(old(host).requests(), final(host).requests()).message == 0,
        r is Ok <==> first(old(host).requests(), final(host).requests()).reply != FAILURE,
        r is Ok ==> r->Ok_0 == first(old(host).requests(), final(host).requests()).reply,
        only_one(old(host).requests(), final(host).requests()),
{
    let raw = host.trap(Syscall::Clock, 0);
    let ghost mid = host.requests();
    let r = map_res::<H, ()>(host, raw);
    proof {
        lemma_call(old(host).requests(), mid, host.requests());
    }
    r
}

/// Ticks per second of the host's elapsed-time counter.
pub fn tick_freq<H: Semihost>(host: &mut Host<H>) -> (r: Result<usize, ()>)
    ensures
        made(old(host).requests(), final(host).requests()),
        first(old(host).requests(), final(host).requests()).op == Syscall::TickFreq,
        first(old(host).requests(), final(host).requests()).message == 0,
        r is Ok <==> first(old(host).requests(), final(host).requests()).reply != FAILURE,
        r is Ok ==> r->Ok_0 == first(old(host).requests(), final(host).requests()).reply,
        only_one(old(host).requests(), final(host).requests()),
{
    let raw = host.trap(Syscall::TickFreq, 0);
    let ghost mid = host.requests();
    let r = map_res::<H, ()>(host, raw);
    proof {
        lemma_call(old(host).requests(), mid, host.requests());
    }
    r
}

/// What `get_cmdline` makes of a reply and of the block the host left: the
/// length in the block's second word, unless the reply is the failure word.
pub open spec fn cmdline_of(raw: usize, block: Seq<usize>) -> Result<usize, ()> {
    if raw == FAILURE || block.len() < 2 {
        Err(())
    } else {
        Ok(block[1])
    }
}

/// Decodes the reply to `get_cmdline`: on success the host has left the
/// length of the command line in the second word of the block.
pub fn cmdline_result(raw: usize, block: &[usize]) -> (r: Result<usize, ()>)
    ensures
        r == cmdline_of(raw, block@),
{
    if raw == FAILURE || block.len() < 2 {
        Err(())
    } else {
        Ok(block[1])
    }
}

/// Copies the command line into `buffer` as a C string, giving its length
/// without the final zero. A host transfers at least 80 bytes; no more
/// should be counted on.
pub fn get_cmdline<H: Semihost>(host: &mut Host<H>, buffer: &mut [u8]) -> (r: Result<usize, ()>)
    ensures
        made(old(host).requests(), final(host).requests()),
        only_one(old(host).requests(), final(host).requests()),
        is_request(first(old(host).requests(), final(host).requests()), Syscall::GetCmdline, Shape::Receive(0), seq![0usize, old(buffer)@.len() as usize], old(buffer)@),
        r == cmdline_of(first(old(host).requests(), final(host).requests()).reply, first(old(host).requests(), final(host).requests()).block_after),
        final(buffer)@ == first(old(host).requests(), final(host).requests()).data_after,
{
    let mut block = vec![0usize, buffer.len()];
    let raw = host.trap_receive(Syscall::GetCmdline, block.as_mut_slice(), 0, buffer);
    proof {
        lemma_call(old(host).requests(), host.requests(), host.requests());
    }
    cmdline_result(raw, block.as_slice())
}

/// Whether the host reads `res` as an error status: any reply but zero.
pub fn is_error<H: Semihost>(host: &mut Host<H>, res: usize) -> (r: bool)
    ensures
        made(old(host).requests(), final(host).requests()),
        only_one(old(host).requests(), final(host).requests()),
        is_request(first(old(host).requests(), final(host).requests()), Syscall::IsError, Shape::Block, seq![res], seq![]),
        r == (first(old(host).requests(), final(host).requests()).reply != 0),
{
    let mut block = vec![res];
    proof {
        assert(block@ =~= seq![res]);
    }
    let raw = host.trap_block(Syscall::IsError, block.as_mut_slice());
    proof {
        lemma_call(old(host).requests(), host.requests(), host.requests());
    }
    raw != 0
}

/// One byte from the host's console: the low byte of the reply.
pub fn read_char<H: Semihost>(host: &mut Host<H>) -> (r: u8)
    ensures
        made(old(host).requests(), final(host).requests()),
        only_one(old(host).requests(), final(host).requests()),
        first(old(host).requests(), final(host).requests()).op == Syscall::ReadC,
        first(old(host).requests(), final(host).requests()).message == 0,
        r == first(old(host).requests(), final(host).requests()).reply % 256,
{
    let raw = syscall0(host, Syscall::ReadC);
    (raw % 256) as u8
}

/// The WriteC request of the byte `c`.
pub open spec fn is_char_request(q: Request, c: u8) -> bool {
    is_request(q, Syscall::WriteC, Shape::Send(0), seq![], seq![c])
}

/// Writes one byte to the host's console.
pub fn write_char<H: Semihost>(host: &mut Host<H>, c: u8)
    ensures
        made(old(host).requests(), final(host).requests()),
        only_one(old(host).requests(), final(host).requests()),
        is_char_request(first(old(host).requests(), final(host).requests()), c),
{
    let mut none: [usize; 0] = [];
    let one = [c];
    proof {
        assert(none@ =~= Seq::<usize>::empty());
        assert(one@ =~= seq![c]);
    }
    let _ = host.trap_send(Syscall::WriteC, &mut none, 0, &one);
    proof {
        lemma_call(old(host).requests(), host.requests(), host.requests());
    }
}

/// Writes the C string `s` to the host's console.
pub fn write_cstr<H: Semihost>(host: &mut Host<H>, s: &[u8])
    requires
        is_c_str(s@),
    ensures
        made(old(host).requests(), final(host).requests()),
        only_one(old(host).requests(), final(host).requests()),
        is_request(first(old(host).requests(), final(host).requests()), Syscall::Write0, Shape::Send(0), seq![], s@),
{
    let mut none: [usize; 0] = [];
    proof {
        assert(none@ =~= Seq::<usize>::empty());
    }
    let _ = host.trap_send(Syscall::Write0, &mut none, 0, s);
    proof {
        lemma_call(old(host).requests(), host.requests(), host.requests());
    }
}

/// Reports an exception or the end of the program to the host, which may
/// resume the program: one request whose message is the reason code.
pub fn report_exception<H: Semihost>(host: &mut Host<H>, reason: Exception) -> (r: usize)
    ensures
        made(old(host).requests(), final(host).requests()),
        only_one(old(host).requests(), final(host).requests()),
        first(old(host).requests(), final(host).requests()).op == Syscall::ReportException,
        first(old(host).requests(), final(host).requests()).shape == Shape::Value,
        first(old(host).requests(), final(host).requests()).message == reason.spec_code(),
        r == first(old(host).requests(), final(host).requests()).reply,
{
    syscall(host, Syscall::ReportException, reason.code())
}

/// Where the heap and the stack lie, as far as the host knows; an address
/// the host does not know is absent.
#[derive(Copy, Clone, PartialEq, Eq, Structural, Debug, Default)]
pub struct HeapInfo {
    pub heap_base: Option<u32>,
    pub heap_limit: Option<u32>,
    pub stack_base: Option<u32>,
    pub stack_limit: Option<u32>,
}

/// An address word of the host: zero, or a word too wide for an address,
/// means that the address is not known.
pub open spec fn address(word: usize) -> Option<u32> {
    if word == 0 || word > u32::MAX {
        None
    } else {
        Some(word as u32)
    }
}

pub fn to_address(word: usize) -> (r: Option<u32>)
    ensures
        r == address(word),
{
    if word == 0 || word > u32::MAX as usize {
        None
    } else {
        Some(word as u32)
    }
}

/// The addresses in the four words that the host fills in: heap base, heap
/// limit, stack base, stack limit. A block of another length holds none.
pub open spec fn heap_info_of(words: Seq<usize>) -> HeapInfo {
    if words.len() == 4 {
        HeapInfo {
            heap_base: address(words[0]),
            heap_limit: address(words[1]),
            stack_base: address(words[2]),
            stack_limit: address(words[3]),
        }
    } else {
        HeapInfo { heap_base: None, heap_limit: None, stack_base: None, stack_limit: None }
    }
}

impl HeapInfo {
    pub fn from_words(words: &[usize]) -> (r: HeapInfo)
        requires
            words@.len() == 4,
        ensures
            r == heap_info_of(words@),
    {
        HeapInfo {
            heap_base: to_address(words[0]),
            heap_limit: to_address(words[1]),
            stack_base: to_address(words[2]),
            stack_limit: to_address(words[3]),
        }
    }
}

/// Asks the host where the heap and the stack lie: one HeapInfo request
/// with a block of four zero words, which the host fills in.
pub fn heapinfo<H: Semihost>(host: &mut Host<H>) -> (r: HeapInfo)
    ensures
        made(old(host).requests(), final(host).requests()),
        only_one(old(host).requests(), final(host).requests()),
        is_request(first(old(host).requests(), final(host).requests()), Syscall::HeapInfo, Shape::Block, seq![0usize, 0usize, 0usize, 0usize], seq![]),
        r == heap_info_of(first(old(host).requests(), final(host).requests()).block_after),
{
    let mut words = vec![0usize, 0usize, 0usize, 0usize];
    proof {
        assert(words@ =~= seq![0usize, 0usize, 0usize, 0usize]);
    }
    let _ = host.trap_block(Syscall::HeapInfo, words.as_mut_slice());
    proof {
        lemma_call(old(host).requests(), host.requests(), host.requests());
    }
    if words.len() == 4 {
        HeapInfo::from_words(words.as_slice())
    } else {
        HeapInfo { heap_base: None, heap_limit: None, stack_base: None, stack_limit: None }
    }
}

/// The first four bytes of the host's feature file.
pub open spec fn feature_magic() -> Seq<u8> {
    seq![0x53u8, 0x48u8, 0x46u8, 0x42u8]
}

/// Why the feature file could not be opened.
#[derive(Copy, Clone, Debug)]
pub enum FeaturesError<E> {
    /// The host reported a failure.
    Io(E),
    /// The file is shorter than its magic number; it has this many bytes.
    TooShort(usize),
    /// Reading the magic number left this many bytes unread.
    Incomplete(usize),
    /// The file does not start with the magic number.
    BadMagic,
    /// The host answered the open with descriptor zero.
    Invalid,
}

/// Whether `bytes` is the magic number of the feature file.
pub fn is_feature_magic(bytes: &[u8]) -> (r: bool)
    ensures
        r == (bytes@ == feature_magic()),
{
    if bytes.len() != 4 {
        return false;
    }
    let r = bytes[0] == 0x53 && bytes[1] == 0x48 && bytes[2] == 0x46 && bytes[3] == 0x42;
    proof {
        if r {
            assert(bytes@ =~= feature_magic());
        }
    }
    r
}

/// The name of the host's feature file, `:semihosting-features`, as a C
/// string.
pub fn features_path() -> (r: Vec<u8>)
    ensures
        r@ == features_name(),
        is_c_str(r@),
{
    let r = vec![58u8, 115u8, 101u8, 109u8, 105u8, 104u8, 111u8, 115u8, 116u8, 105u8, 110u8, 103u8, 45u8, 102u8, 101u8, 97u8, 116u8, 117u8, 114u8, 101u8, 115u8, 0u8];
    assert(r@ =~= features_name());
    r
}

/// `:semihosting-features` as a C string.
pub open spec fn features_name() -> Seq<u8> {
    seq![58u8, 115u8, 101u8, 109u8, 105u8, 104u8, 111u8, 115u8, 116u8, 105u8, 110u8, 103u8, 45u8, 102u8, 101u8, 97u8, 116u8, 117u8, 114u8, 101u8, 115u8, 0u8]
}

/// What `features` asks of the host and returns, given the requests
/// `before` and `after` it: an Open of the feature file, read-only; with a
/// descriptor, an FLen of it; with a length of at least four, a Read of four
/// bytes, which must be the magic number. `TooShort` comes exactly when the
/// length is under four, `BadMagic` exactly when all four bytes were read
/// and differ from the magic number, and `Ok` exactly when they match, with
/// the file still open.
pub open spec fn features_made<E>(before: Seq<Request>, after: Seq<Request>, r: Result<Handle, FeaturesError<E>>) -> bool {
    let at = before.len() as int;
    let fd = after[at].reply;
    &&& made(before, after)
    &&& is_open_request(after[at], features_name(), 0)
    &&& (r matches Err(FeaturesError::Invalid) <==> fd == 0)
    &&& (opened(fd) is Err ==> !(r is Ok) && !(r matches Err(FeaturesError::TooShort(_)))
        && !(r matches Err(FeaturesError::BadMagic)))
    &&& (opened(fd) is Ok ==> {
        let len = after[at + 1].reply;
        &&& after.len() > at + 1
        &&& is_request(after[at + 1], Syscall::FLen, Shape::Block, seq![fd], seq![])
        &&& (r matches Err(FeaturesError::TooShort(n)) <==> len != FAILURE && len < 4)
        &&& (r matches Err(FeaturesError::TooShort(n)) ==> n == len)
        &&& (len == FAILURE || len < 4 ==> !(r is Ok) && !(r matches Err(FeaturesError::BadMagic)))
        &&& (len != FAILURE && len >= 4 ==> {
            let q = after[at + 2];
            &&& after.len() > at + 2
            &&& is_request(q, Syscall::Read, Shape::Receive(1), seq![fd, 0usize, 4usize], q.data)
            &&& (r is Ok <==> q.reply == 0 && q.data_after == feature_magic())
            &&& (r matches Err(FeaturesError::BadMagic) <==> q.reply == 0 && q.data_after != feature_magic())
            &&& (r is Ok ==> r->Ok_0.spec_fd() == fd && after.len() == at + 3)
        })
    })
}

/// Opens the host's feature file and checks its magic number. The handle
/// that comes back stands after the magic number, at the feature bits; on
/// any other outcome the file is closed again.
pub fn features<H: Semihost, E: Errno>(host: &mut Host<H>) -> (r: Result<Handle, FeaturesError<E>>)
    ensures
        extends(old(host).requests(), final(host).requests()),
        features_made(old(host).requests(), final(host).requests(), r),
{
    let ghost b = host.requests();
    let ghost at = b.len() as int;
    let path = features_path();
    let handle = match Handle::open::<H, E>(host, path.as_slice(), Mode::read_only()) {
        Ok(handle) => handle,
        Err(OpenError::Io(e)) => {
            return Err(FeaturesError::Io(e));
        },
        Err(OpenError::Invalid) => {
            return Err(FeaturesError::Invalid);
        },
    };
    let ghost a1 = host.requests();
    let ghost fd = a1[at].reply;
    assert(a1.len() == at + 1);
    let len = match f_len::<H, E>(host, handle.fd()) {
        Ok(len) => len,
        Err(e) => {
            let ghost a2 = host.requests();
            let _ = handle.close::<H, ()>(host);
            proof {
                let a = host.requests();
                lemma_extends_trans(a1, a2, a);
                lemma_extends_trans(b, a1, a);
                lemma_extends_index(a1, a, at);
                lemma_extends_index(a2, a, at + 1);
            }
            return Err(FeaturesError::Io(e));
        },
    };
    let ghost a2 = host.requests();
    assert(a2.len() == at + 2);
    proof {
        lemma_extends_trans(b, a1, a2);
        lemma_extends_index(a1, a2, at);
    }
    if len < 4 {
        let _ = handle.close::<H, ()>(host);
        proof {
            let a = host.requests();
            lemma_extends_trans(b, a2, a);
            lemma_extends_index(a2, a, at);
            lemma_extends_index(a2, a, at + 1);
        }
        return Err(FeaturesError::TooShort(len));
    }
    let mut magic = [0u8; 4];
    let read = handle.read::<H, E>(host, &mut magic);
    let ghost a3 = host.requests();
    proof {
        lemma_extends_trans(b, a2, a3);
        lemma_extends_index(a2, a3, at);
        lemma_extends_index(a2, a3, at + 1);
    }
    match read {
        Ok(0) => {},
        Ok(left) => {
            let _ = handle.close::<H, ()>(host);
            proof {
                let a = host.requests();
                lemma_extends_trans(b, a3, a);
                lemma_extends_index(a3, a, at);
                lemma_extends_index(a3, a, at + 1);
                lemma_extends_index(a3, a, at + 2);
            }
            return Err(FeaturesError::Incomplete(left));
        },
        Err(e) => {
            let _ = handle.close::<H, ()>(host);
            proof {
                let a = host.requests();
                lemma_extends_trans(b, a3, a);
                lemma_extends_index(a3, a, at);
                lemma_extends_index(a3, a, at + 1);
                lemma_extends_index(a3, a, at + 2);
            }
            return Err(FeaturesError::Io(e));
        },
    }
    if is_feature_magic(&magic) {
        Ok(handle)
    } else {
        let _ = handle.close::<H, ()>(host);
        proof {
            let a = host.requests();
            lemma_extends_trans(b, a3, a);
            lemma_extends_index(a3, a, at);
            lemma_extends_index(a3, a, at + 1);
            lemma_extends_index(a3, a, at + 2);
        }
        Err(FeaturesError::BadMagic)
    }
}

/// The room that every host gives the command line.
pub const CMDLINE_CAPACITY: usize = 80;

/// Whether the first `len + 1` bytes of `buffer` form a C string, as the
/// host leaves the command line there.
pub fn is_c_str_prefix(buffer: &[u8], len: usize) -> (r: bool)
    ensures
        r == (len < buffer@.len() && is_c_str(buffer@.subrange(0, len + 1))),
{
    if len >= buffer.len() || buffer[len] != 0 {
        return false;
    }
    let mut i: usize = 0;
    while i < len
        invariant
            i <= len < buffer@.len(),
            buffer@[len as int] == 0,
            forall|j: int| 0 <= j < i ==> buffer@[j] != 0,
        decreases len - i,
    {
        if buffer[i] == 0 {
            proof {
                assert(buffer@.subrange(0, len + 1)[i as int] == 0);
            }
            return false;
        }
        i = i + 1;
    }
    true
}

/// The command line that a GetCmdline request `q` brought back: the C
/// string of the length the host gave, final zero included, at the start of
/// the buffer it filled; none when the host failed or left no such string.
pub open spec fn command_line(q: Request) -> Option<Seq<u8>> {
    match cmdline_of(q.reply, q.block_after) {
        Ok(len) => if len < q.data_after.len() && is_c_str(q.data_after.subrange(0, len + 1)) {
            Some(q.data_after.subrange(0, len + 1))
        } else {
            None
        },
        Err(_) => None,
    }
}

/// Reads the command line into a buffer of `CMDLINE_CAPACITY` bytes, with
/// one GetCmdline request, and hands it to `f` as a C string, final zero
/// included: `Ok` of what `f` returns exactly when the host brought one
/// back, `Err` otherwise.
pub fn parse_cmdline<H: Semihost, T, F: FnOnce(Vec<u8>) -> T>(host: &mut Host<H>, f: F) -> (r: Result<T, ()>)
    requires
        forall|s: Vec<u8>| #[trigger] f.requires((s,)),
    ensures
        made(old(host).requests(), final(host).requests()),
        only_one(old(host).requests(), final(host).requests()),
        is_request(first(old(host).requests(), final(host).requests()), Syscall::GetCmdline, Shape::Receive(0), seq![0usize, CMDLINE_CAPACITY], first(old(host).requests(), final(host).requests()).data),
        first(old(host).requests(), final(host).requests()).data.len() == CMDLINE_CAPACITY,
        r is Ok <==> command_line(first(old(host).requests(), final(host).requests())) is Some,
        r is Ok ==> exists|s: Vec<u8>|
            {
                &&& s@ == command_line(first(old(host).requests(), final(host).requests()))->Some_0
                &&& #[trigger] f.ensures((s,), r->Ok_0)
            },
{
    let mut buffer = [0u8; CMDLINE_CAPACITY];
    let len = match get_cmdline(host, &mut buffer) {
        Ok(len) => len,
        Err(e) => {
            return Err(e);
        },
    };
    if !is_c_str_prefix(&buffer, len) {
        return Err(());
    }
    let line = slice_to_vec(slice_subrange(&buffer, 0, len + 1));
    proof {
        assert(line@ =~= buffer@.subrange(0, len + 1));
        assert(command_line(first(old(host).requests(), host.requests())) == Some(line@));
    }
    let ghost given = line;
    let r: Result<T, ()> = Ok(f(line));
    proof {
        assert(f.ensures((given,), r->Ok_0));
    }
    r
}

} // verus!
