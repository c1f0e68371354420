//! Operation codes, exception reasons, trap encodings and the host interface.
use vstd::prelude::*;

verus! {

/// The operation codes of the semihosting interface.
#[derive(Copy, Clone, PartialEq, Eq, Structural, PartialOrd, Ord, Hash, Debug)]
pub enum Syscall {
    Open,
    Close,
    WriteC,
    Write0,
    Write,
    Read,
    ReadC,
    IsError,
    IsTTY,
    Seek,
    FLen,
    TmpNam,
    Remove,
    Rename,
    Clock,
    Time,
    System,
    Errno,
    GetCmdline,
    HeapInfo,
    EnterSVC,
    ReportException,
    ReportExceptionExtended,
    Elapsed,
    TickFreq,
}

impl Syscall {
    /// The number that identifies the operation to the host.
    pub open spec fn spec_code(self) -> usize {
        match self {
            Syscall::Open => 1,
            Syscall::Close => 2,
            Syscall::WriteC => 3,
            Syscall::Write0 => 4,
            Syscall::Write => 5,
            Syscall::Read => 6,
            Syscall::ReadC => 7,
            Syscall::IsError => 8,
            Syscall::IsTTY => 9,
            Syscall::Seek => 10,
            Syscall::FLen => 12,
            Syscall::TmpNam => 13,
            Syscall::Remove => 14,
            Syscall::Rename => 15,
            Syscall::Clock => 16,
            Syscall::Time => 17,
            Syscall::System => 18,
            Syscall::Errno => 19,
            Syscall::GetCmdline => 21,
            Syscall::HeapInfo => 22,
            Syscall::EnterSVC => 23,
            Syscall::ReportException => 24,
            Syscall::ReportExceptionExtended => 32,
            Syscall::Elapsed => 48,
            Syscall::TickFreq => 49,
        }
    }

    pub fn code(self) -> (r: usize)
        ensures
            r == self.spec_code(),
    {
        match self {
            Syscall::Open => 1,
            Syscall::Close => 2,
            Syscall::WriteC => 3,
            Syscall::Write0 => 4,
            Syscall::Write => 5,
            Syscall::Read => 6,
            Syscall::ReadC => 7,
            Syscall::IsError => 8,
            Syscall::IsTTY => 9,
            Syscall::Seek => 10,
            Syscall::FLen => 12,
            Syscall::TmpNam => 13,
            Syscall::Remove => 14,
            Syscall::Rename => 15,
            Syscall::Clock => 16,
            Syscall::Time => 17,
            Syscall::System => 18,
            Syscall::Errno => 19,
            Syscall::GetCmdline => 21,
            Syscall::HeapInfo => 22,
            Syscall::EnterSVC => 23,
            Syscall::ReportException => 24,
            Syscall::ReportExceptionExtended => 32,
            Syscall::Elapsed => 48,
            Syscall::TickFreq => 49,
        }
    }
}

/// Reason codes that can be reported to the host.
#[derive(Copy, Clone, PartialEq, Eq, Structural, PartialOrd, Ord, Hash, Debug)]
pub enum Exception {
    BranchThroughZero,
    UndefinedInstr,
    SoftwareInterrupt,
    PrefetchAbort,
    DataAbort,
    AddressException,
    IRQ,
    FIQ,
    BreakPoint,
    WatchPoint,
    StepComplete,
    RunTimeErrorUnknown,
    InternalError,
    UserInterruption,
    ApplicationExit,
    StackOverflow,
    DivisionByZero,
    OSSpecific,
}

impl Exception {
    /// The reason code that the host receives.
    pub open spec fn spec_code(self) -> usize {
        match self {
            Exception::BranchThroughZero => 0x20000,
            Exception::UndefinedInstr => 0x20001,
            Exception::SoftwareInterrupt => 0x20002,
            Exception::PrefetchAbort => 0x20003,
            Exception::DataAbort => 0x20004,
            Exception::AddressException => 0x20005,
            Exception::IRQ => 0x20006,
            Exception::FIQ => 0x20007,
            Exception::BreakPoint => 0x20020,
            Exception::WatchPoint => 0x20021,
            Exception::StepComplete => 0x20022,
            Exception::RunTimeErrorUnknown => 0x20023,
            Exception::InternalError => 0x20024,
            Exception::UserInterruption => 0x20025,
            Exception::ApplicationExit => 0x20026,
            Exception::StackOverflow => 0x20027,
            Exception::DivisionByZero => 0x20028,
            Exception::OSSpecific => 0x20029,
        }
    }

    pub fn code(self) -> (r: usize)
        ensures
            r == self.spec_code(),
    {
        match self {
            Exception::BranchThroughZero => 0x20000,
            Exception::UndefinedInstr => 0x20001,
            Exception::SoftwareInterrupt => 0x20002,
            Exception::PrefetchAbort => 0x20003,
            Exception::DataAbort => 0x20004,
            Exception::AddressException => 0x20005,
            Exception::IRQ => 0x20006,
            Exception::FIQ => 0x20007,
            Exception::BreakPoint => 0x20020,
            Exception::WatchPoint => 0x20021,
            Exception::StepComplete => 0x20022,
            Exception::RunTimeErrorUnknown => 0x20023,
            Exception::InternalError => 0x20024,
            Exception::UserInterruption => 0x20025,
            Exception::ApplicationExit => 0x20026,
            Exception::StackOverflow => 0x20027,
            Exception::DivisionByZero => 0x20028,
            Exception::OSSpecific => 0x20029,
        }
    }
}

/// The instruction set that the firmware runs in.
#[derive(Copy, Clone, PartialEq, Eq, Structural, Debug)]
pub enum InstructionSet {
    /// The 32-bit ARM instruction set.
    Arm,
    /// The compact Thumb instruction set on a core with a semihosting `SVC`.
    Thumb,
    /// Thumb on an M-profile core, where semihosting goes through `BKPT`.
    ThumbM,
}

/// The version of the semihosting protocol.
#[derive(Copy, Clone, PartialEq, Eq, Structural, Debug)]
pub enum Protocol {
    /// `SVC` or `BKPT` with a fixed immediate.
    Legacy,
    /// A dedicated `HLT` encoding.
    V2,
}

/// The kind of trap instruction.
#[derive(Copy, Clone, PartialEq, Eq, Structural, Debug)]
pub enum TrapKind {
    Svc,
    Bkpt,
    Hlt,
}

/// One trap instruction: its kind, its immediate, its machine encoding and
/// the width of that encoding in bits.
#[derive(Copy, Clone, PartialEq, Eq, Structural, Debug)]
pub struct Trap {
    pub kind: TrapKind,
    pub immediate: u32,
    pub encoding: u32,
    pub width: u32,
}

/// The trap that a target issues for a semihosting call. In every case the
/// operation number travels in `r0`, the message in `r1`, and the result
/// comes back in `r0`.
pub open spec fn trap_spec(isa: InstructionSet, protocol: Protocol) -> Trap {
    match (protocol, isa) {
        (Protocol::Legacy, InstructionSet::Arm) =>
            Trap { kind: TrapKind::Svc, immediate: 0x123456, encoding: 0xEF123456, width: 32 },
        (Protocol::Legacy, InstructionSet::Thumb) =>
            Trap { kind: TrapKind::Svc, immediate: 0xab, encoding: 0xDFAB, width: 16 },
        (Protocol::Legacy, InstructionSet::ThumbM) =>
            Trap { kind: TrapKind::Bkpt, immediate: 0xab, encoding: 0xBEAB, width: 16 },
        (Protocol::V2, InstructionSet::Arm) =>
            Trap { kind: TrapKind::Hlt, immediate: 0xF000, encoding: 0xE10F0070, width: 32 },
        (Protocol::V2, _) =>
            Trap { kind: TrapKind::Hlt, immediate: 0x3c, encoding: 0xBABC, width: 16 },
    }
}

/// Selects the trap instruction for an instruction set and protocol version.
pub fn trap_for(isa: InstructionSet, protocol: Protocol) -> (r: Trap)
    ensures
        r == trap_spec(isa, protocol),
{
    match protocol {
        Protocol::Legacy => match isa {
            InstructionSet::Arm => Trap {
                kind: TrapKind::Svc,
                immediate: 0x123456,
                encoding: 0xEF123456,
                width: 32,
            },
            InstructionSet::Thumb => Trap {
                kind: TrapKind::Svc,
                immediate: 0xab,
                encoding: 0xDFAB,
                width: 16,
            },
            InstructionSet::ThumbM => Trap {
                kind: TrapKind::Bkpt,
                immediate: 0xab,
                encoding: 0xBEAB,
                width: 16,
            },
        },
        Protocol::V2 => match isa {
            InstructionSet::Arm => Trap {
                kind: TrapKind::Hlt,
                immediate: 0xF000,
                encoding: 0xE10F0070,
                width: 32,
            },
            _ => Trap { kind: TrapKind::Hlt, immediate: 0x3c, encoding: 0xBABC, width: 16 },
        },
    }
}

/// How the message of a request was formed.
#[derive(Copy, Clone, PartialEq, Eq, Structural, Debug)]
pub enum Shape {
    /// The message is a value.
    Value,
    /// The message is the address of an argument block.
    Block,
    /// The block's word at this slot holds the address of bytes the host reads.
    Send(usize),
    /// The block's word at this slot holds the address of bytes the host writes.
    Receive(usize),
    /// The block's words 0 and 2 hold the addresses of two byte strings.
    SendTwo,
}

/// One trap as the library sees it: what was handed to the host, the word
/// that came back, and what the host left in the block and the buffer.
pub struct Request {
    pub op: Syscall,
    pub shape: Shape,
    pub message: usize,
    pub block: Seq<usize>,
    pub data: Seq<u8>,
    pub second: Seq<u8>,
    pub reply: usize,
    pub block_after: Seq<usize>,
    pub data_after: Seq<u8>,
}

/// Whether `q` is a trap of `op`, formed as `shape`, with argument block
/// `block` and bytes `data`.
pub open spec fn is_request(q: Request, op: Syscall, shape: Shape, block: Seq<usize>, data: Seq<u8>) -> bool {
    &&& q.op == op
    &&& q.shape == shape
    &&& q.block == block
    &&& q.data == data
}

/// `after` is `before` with more requests at the end.
pub open spec fn extends(before: Seq<Request>, after: Seq<Request>) -> bool {
    &&& before.len() <= after.len()
    &&& after.subrange(0, before.len() as int) == before
}

/// The requests of `after` that follow `before`.
pub open spec fn added(before: Seq<Request>, after: Seq<Request>) -> Seq<Request> {
    after.subrange(before.len() as int, after.len() as int)
}

/// `after` is `before` with at least one more request.
pub open spec fn made(before: Seq<Request>, after: Seq<Request>) -> bool {
    extends(before, after) && after.len() > before.len()
}

/// The first request of `after` that follows `before`.
pub open spec fn first(before: Seq<Request>, after: Seq<Request>) -> Request {
    after[before.len() as int]
}

/// `before` followed by the first request that `after` adds to it.
pub open spec fn through_first(before: Seq<Request>, after: Seq<Request>) -> Seq<Request> {
    before.push(first(before, after))
}

/// `after` is `before` with exactly one more request.
pub open spec fn only_one(before: Seq<Request>, after: Seq<Request>) -> bool {
    after.len() == before.len() + 1
}

/// The requests that follow a push of `q` follow `q`.
pub proof fn lemma_after_push(before: Seq<Request>, q: Request, after: Seq<Request>)
    requires
        extends(before.push(q), after),
    ensures
        made(before, after),
        first(before, after) == q,
        added(before, after) == seq![q] + added(before.push(q), after),
{
    assert(after.subrange(0, before.push(q).len() as int) == before.push(q));
    assert(after.subrange(0, before.len() as int) =~= before.push(q).subrange(0, before.len() as int));
    assert(before.push(q).subrange(0, before.len() as int) =~= before);
    assert(after[before.len() as int] == before.push(q)[before.len() as int]);
    assert(added(before, after) =~= seq![q] + added(before.push(q), after));
}

/// A call that pushed one request, `mid.last()`, and then possibly more.
pub proof fn lemma_call(before: Seq<Request>, mid: Seq<Request>, after: Seq<Request>)
    requires
        mid.len() > 0,
        mid == before.push(mid.last()),
        after == mid || extends(mid, after),
    ensures
        made(before, after),
        first(before, after) == mid.last(),
        after == mid ==> only_one(before, after),
{
    assert(mid.subrange(0, mid.len() as int) =~= mid);
    lemma_after_push(before, mid.last(), after);
}

/// A request keeps its place when more follow it.
pub proof fn lemma_extends_index(before: Seq<Request>, after: Seq<Request>, i: int)
    requires
        extends(before, after),
        0 <= i < before.len(),
    ensures
        after[i] == before[i],
{
    assert(after.subrange(0, before.len() as int)[i] == after[i]);
}

/// `extends` is transitive.
pub proof fn lemma_extends_trans(a: Seq<Request>, b: Seq<Request>, c: Seq<Request>)
    requires
        extends(a, b),
        extends(b, c),
    ensures
        extends(a, c),
        added(a, c) == added(a, b) + added(b, c),
{
    assert(c.subrange(0, a.len() as int) =~= c.subrange(0, b.len() as int).subrange(0, a.len() as int));
    assert(added(a, c) =~= added(a, b) + added(b, c)) by {
        assert(b =~= c.subrange(0, b.len() as int));
    }
}

/// The debug host, reached through the trap instruction of the target.
///
/// Each method issues one trap and returns the word that the host leaves
/// in `r0`. Nothing is assumed of that word, nor of what the host does with
/// the block and the buffer: the library goes through `Host`, which records
/// what was handed over and what came back.
pub trait Semihost {
    /// Traps with `op`, the message register holding `message` itself (zero
    /// where `op` takes no argument).
    fn trap(&mut self, op: Syscall, message: usize) -> usize;

    /// Traps with `op` and the address of the argument block `block`, which
    /// the host may write into.
    fn trap_block(&mut self, op: Syscall, block: &mut [usize]) -> usize;

    /// Traps with `op` and the address of `block`, whose word at `slot` is
    /// first set to the address of `data`; the host reads `data`. With an
    /// empty `block` the message is the address of `data` itself.
    fn trap_send(&mut self, op: Syscall, block: &mut [usize], slot: usize, data: &[u8]) -> usize;

    /// As `trap_send`, but the host writes into `data`.
    fn trap_receive(&mut self, op: Syscall, block: &mut [usize], slot: usize, data: &mut [u8]) -> usize;

    /// Traps with `op` and the address of `block`, whose words 0 and 2 are
    /// first set to the addresses of `first` and `second`, which the host
    /// reads.
    fn trap_send_two(&mut self, op: Syscall, block: &mut [usize], first: &[u8], second: &[u8]) -> usize;
}

/// A host together with the record of every request made of it through
/// the library: what was handed over, and what came back.
pub struct Host<H> {
    pub raw: H,
    log: Ghost<Seq<Request>>,
}

impl<H: Semihost> Host<H> {
    /// The requests made so far, oldest first.
    pub closed spec fn requests(&self) -> Seq<Request> {
        self.log@
    }

    /// `raw`, with no request made yet.
    pub fn new(raw: H) -> (r: Self)
        ensures
            r.requests() == Seq::<Request>::empty(),
    {
        Host { raw, log: Ghost(Seq::empty()) }
    }

    /// Traps with `op` and `message` in the message register.
    pub fn trap(&mut self, op: Syscall, message: usize) -> (r: usize)
        ensures
            final(self).requests() == old(self).requests().push(
                (Request {
                    op,
                    shape: Shape::Value,
                    message,
                    block: seq![],
                    data: seq![],
                    second: seq![],
                    reply: r,
                    block_after: seq![],
                    data_after: seq![],
                }),
            ),
    {
        let r = self.raw.trap(op, message);
        self.log = Ghost(
            self.log@.push(
                Request {
                    op,
                    shape: Shape::Value,
                    message,
                    block: seq![],
                    data: seq![],
                    second: seq![],
                    reply: r,
                    block_after: seq![],
                    data_after: seq![],
                },
            ),
        );
        r
    }

    /// Traps with `op` and the address of `block`.
    pub fn trap_block(&mut self, op: Syscall, block: &mut [usize]) -> (r: usize)
        ensures
            final(self).requests() == old(self).requests().push(
                (Request {
                    op,
                    shape: Shape::Block,
                    message: 0,
                    block: old(block)@,
                    data: seq![],
                    second: seq![],
                    reply: r,
                    block_after: final(block)@,
                    data_after: seq![],
                }),
            ),
    {
        let ghost before = block@;
        let r = self.raw.trap_block(op, block);
        self.log = Ghost(
            self.log@.push(
                Request {
                    op,
                    shape: Shape::Block,
                    message: 0,
                    block: before,
                    data: seq![],
                    second: seq![],
                    reply: r,
                    block_after: block@,
                    data_after: seq![],
                },
            ),
        );
        r
    }

    /// Traps with `op` and `block`, whose word at `slot` addresses `data`.
    pub fn trap_send(&mut self, op: Syscall, block: &mut [usize], slot: usize, data: &[u8]) -> (r: usize)
        ensures
            final(self).requests() == old(self).requests().push(
                (Request {
                    op,
                    shape: Shape::Send(slot),
                    message: 0,
                    block: old(block)@,
                    data: data@,
                    second: seq![],
                    reply: r,
                    block_after: final(block)@,
                    data_after: data@,
                }),
            ),
    {
        let ghost before = block@;
        let r = self.raw.trap_send(op, block, slot, data);
        self.log = Ghost(
            self.log@.push(
                Request {
                    op,
                    shape: Shape::Send(slot),
                    message: 0,
                    block: before,
                    data: data@,
                    second: seq![],
                    reply: r,
                    block_after: block@,
                    data_after: data@,
                },
            ),
        );
        r
    }

    /// As `trap_send`, but the host writes into `data`.
    pub fn trap_receive(&mut self, op: Syscall, block: &mut [usize], slot: usize, data: &mut [u8]) -> (r: usize)
        ensures
            final(self).requests() == old(self).requests().push(
                (Request {
                    op,
                    shape: Shape::Receive(slot),
                    message: 0,
                    block: old(block)@,
                    data: old(data)@,
                    second: seq![],
                    reply: r,
                    block_after: final(block)@,
                    data_after: final(data)@,
                }),
            ),
    {
        let ghost before = block@;
        let ghost data_before = data@;
        let r = self.raw.trap_receive(op, block, slot, data);
        self.log = Ghost(
            self.log@.push(
                Request {
                    op,
                    shape: Shape::Receive(slot),
                    message: 0,
                    block: before,
                    data: data_before,
                    second: seq![],
                    reply: r,
                    block_after: block@,
                    data_after: data@,
                },
            ),
        );
        r
    }

    /// Traps with `op` and `block`, whose words 0 and 2 address `first` and
    /// `second`.
    pub fn trap_send_two(&mut self, op: Syscall, block: &mut [usize], first: &[u8], second: &[u8]) -> (r: usize)
        ensures
            final(self).requests() == old(self).requests().push(
                (Request {
                    op,
                    shape: Shape::SendTwo,
                    message: 0,
                    block: old(block)@,
                    data: first@,
                    second: second@,
                    reply: r,
                    block_after: final(block)@,
                    data_after: first@,
                }),
            ),
    {
        let ghost before = block@;
        let r = self.raw.trap_send_two(op, block, first, second);
        self.log = Ghost(
            self.log@.push(
                Request {
                    op,
                    shape: Shape::SendTwo,
                    message: 0,
                    block: before,
                    data: first@,
                    second: second@,
                    reply: r,
                    block_after: block@,
                    data_after: first@,
                },
            ),
        );
        r
    }
}

/// Issues `op` with `message` in the message register: a value, the address
/// of an argument block, or zero.
pub fn syscall<H: Semihost>(host: &mut Host<H>, op: Syscall, message: usize) -> (r: usize)
    ensures
        only_one(old(host).requests(), final(host).requests()),
        made(old(host).requests(), final(host).requests()),
        first(old(host).requests(), final(host).requests()).op == op,
        first(old(host).requests(), final(host).requests()).shape == Shape::Value,
        first(old(host).requests(), final(host).requests()).message == message,
        first(old(host).requests(), final(host).requests()).reply == r,
{
    let r = host.trap(op, message);
    proof {
        let before = old(host).requests();
        assert(host.requests().subrange(0, before.len() as int) =~= before);
    }
    r
}

/// Issues `op`, which takes no argument.
pub fn syscall0<H: Semihost>(host: &mut Host<H>, op: Syscall) -> (r: usize)
    ensures
        only_one(old(host).requests(), final(host).requests()),
        made(old(host).requests(), final(host).requests()),
        first(old(host).requests(), final(host).requests()).op == op,
        first(old(host).requests(), final(host).requests()).shape == Shape::Value,
        first(old(host).requests(), final(host).requests()).message == 0,
        first(old(host).requests(), final(host).requests()).reply == r,
{
    syscall(host, op, 0)
}

} // verus!
