//! Console output: byte by byte, and through a shared handle that is opened
//! on first use.
use vstd::prelude::*;
use vstd::string::StringSliceAdditionalSpecFns;
use core::sync::atomic::{AtomicUsize, Ordering};
use crate::io::{
    is_c_str, is_char_request, is_open_request, open, opened, write_all_trace, write_char, Handle,
    Mode, OpenError, WriteAllError,
};
use crate::syscall::{added, extends, first, lemma_extends_trans, made, only_one, Request};
use crate::syscall::{Host, Semihost};

verus! {

/// The WriteC requests of the bytes `bytes`, one per byte, in order.
pub open spec fn is_char_requests(reqs: Seq<Request>, bytes: Seq<u8>) -> bool {
    &&& reqs.len() == bytes.len()
    &&& forall|i: int| 0 <= i < bytes.len() ==> #[trigger] is_char_request(reqs[i], bytes[i])
}

/// Writes each byte of `s` to the host's console, one trap per byte.
pub fn print_str<H: Semihost>(host: &mut Host<H>, s: &str)
    ensures
        extends(old(host).requests(), final(host).requests()),
        is_char_requests(added(old(host).requests(), final(host).requests()), s.spec_bytes()),
{
    let bytes = s.as_bytes();
    let mut i: usize = 0;
    proof {
        assert(host.requests().subrange(0, host.requests().len() as int) =~= host.requests());
    }
    while i < bytes.len()
        invariant
            i <= bytes@.len(),
            bytes@ == s.spec_bytes(),
            extends(old(host).requests(), host.requests()),
            is_char_requests(added(old(host).requests(), host.requests()), bytes@.subrange(0, i as int)),
        decreases bytes@.len() - i,
    {
        let ghost log0 = host.requests();
        write_char::<H>(host, bytes[i]);
        proof {
            let log1 = host.requests();
            lemma_extends_trans(old(host).requests(), log0, log1);
            assert(added(log0, log1) =~= seq![log1[log0.len() as int]]);
            let all = added(old(host).requests(), log1);
            assert(all =~= added(old(host).requests(), log0).push(log1[log0.len() as int]));
            assert forall|k: int| 0 <= k < i + 1 implies #[trigger] is_char_request(all[k], bytes@.subrange(0, i + 1)[k]) by {
                if k < i {
                    assert(bytes@.subrange(0, i as int)[k] == bytes@.subrange(0, i + 1)[k]);
                }
            }
        }
        i = i + 1;
    }
    proof {
        assert(bytes@.subrange(0, i as int) =~= bytes@);
    }
}

/// A slow but simple way to print: every byte is its own trap.
#[derive(Copy, Clone, Debug)]
pub struct CharPrinter;

impl CharPrinter {
    /// Prints `s`; printing this way cannot fail.
    pub fn write_str<H: Semihost>(&self, host: &mut Host<H>, s: &str)
        ensures
            extends(old(host).requests(), final(host).requests()),
            is_char_requests(added(old(host).requests(), final(host).requests()), s.spec_bytes()),
    {
        print_str::<H>(host, s);
    }
}

/// `:tt`, the name of the host's default console stream, as a C string.
pub open spec fn console_name() -> Seq<u8> {
    seq![0x3au8, 0x74u8, 0x74u8, 0u8]
}

/// The name of the host's default console stream, `:tt`, as a C string.
pub fn console_path() -> (r: Vec<u8>)
    ensures
        r@ == console_name(),
        is_c_str(r@),
{
    let r = vec![0x3au8, 0x74u8, 0x74u8, 0u8];
    assert(r@ =~= console_name());
    r
}

/// The descriptor that a value of the shared slot holds: none while it is
/// zero.
pub open spec fn cached_spec(current: usize) -> Option<usize> {
    if current != 0 {
        Some(current)
    } else {
        None
    }
}

pub fn cached(current: usize) -> (r: Option<usize>)
    ensures
        r == cached_spec(current),
{
    if current != 0 {
        Some(current)
    } else {
        None
    }
}

/// The descriptor that a caller of `handle` goes on with, given the outcome
/// of publishing its freshly opened `opened`: its own when the slot was
/// still empty, else the one that another caller published first.
pub open spec fn adopted(published: Result<usize, usize>, opened: usize) -> usize {
    match published {
        Ok(_) => opened,
        Err(current) => if current != 0 {
            current
        } else {
            opened
        },
    }
}

pub fn adopt(published: Result<usize, usize>, opened: usize) -> (r: usize)
    ensures
        r == adopted(published, opened),
{
    match published {
        Ok(_) => opened,
        Err(current) => if current != 0 {
            current
        } else {
            opened
        },
    }
}

/// What `compare_exchange(0, new)` does to a slot holding `slot`: the slot
/// after it, and what it returns.
pub open spec fn publish(slot: usize, new: usize) -> (usize, Result<usize, usize>) {
    if slot == 0 {
        (new, Ok(0))
    } else {
        (slot, Err(slot))
    }
}

/// Two callers of `handle` that both found the shared slot empty and opened
/// `a` and `b` publish one after the other, in either order, each through
/// `compare_exchange(0, _)` as std documents it (`publish`) and then `adopt`:
/// the slot settles on the first of the two, both callers go on with it, and
/// it is not zero, so every later caller takes it from `cached` without a
/// request.
pub proof fn lemma_racing_publish_settles(a: usize, b: usize)
    requires
        a != 0,
        b != 0,
    ensures
        ({
            let (slot1, first) = publish(0, a);
            let (slot2, second) = publish(slot1, b);
            &&& slot2 == a
            &&& adopted(first, a) == slot2
            &&& adopted(second, b) == slot2
            &&& cached_spec(slot2) == Some(slot2)
        }),
        ({
            let (slot1, first) = publish(0, b);
            let (slot2, second) = publish(slot1, a);
            &&& slot2 == b
            &&& adopted(first, b) == slot2
            &&& adopted(second, a) == slot2
            &&& cached_spec(slot2) == Some(slot2)
        }),
{
}

/// A console handle shared by every caller, opened the first time it is
/// needed. Callers that race to open it may each open the console, but all
/// of them settle on the one descriptor that was published first.
#[derive(Debug)]
pub struct GlobalLogger {
    /// The published descriptor, zero until the console is opened. It is
    /// public so that a `static` logger can be written as a literal.
    pub handle: AtomicUsize,
}

impl GlobalLogger {
    /// A logger that has not opened the console yet.
    pub fn new() -> (r: Self) {
        GlobalLogger { handle: AtomicUsize::new(0) }
    }

    /// The console handle, opened in append mode on first use; `None` when
    /// the host cannot open it. See `handle_made` for the requests.
    pub fn handle<H: Semihost>(&self, host: &mut Host<H>) -> (r: Option<Handle>)
        ensures
            handle_made(old(host).requests(), final(host).requests(), r),
    {
        let current = self.handle.load(Ordering::Relaxed);
        if let Some(fd) = cached(current) {
            proof {
                assert(host.requests().subrange(0, host.requests().len() as int) =~= host.requests());
            }
            return Some(Handle::from_fd(fd));
        }
        let path = console_path();
        let opened = match open::<H, ()>(host, path.as_slice(), Mode::append()) {
            Ok(fd) => fd,
            Err(_) => {
                return None;
            },
        };
        let published = self.handle.compare_exchange(0, opened, Ordering::Relaxed, Ordering::Relaxed);
        Some(Handle::from_fd(adopt(published, opened)))
    }

    /// Writes `s` whole to the console: `Some` exactly when the handle was
    /// had and `write_all` of the bytes of `s` to it succeeded. See `logged`
    /// for the requests.
    pub fn log<H: Semihost>(&self, host: &mut Host<H>, s: &str) -> (r: Option<()>)
        ensures
            extends(old(host).requests(), final(host).requests()),
            exists|k: int, h: Option<Handle>, w: Result<(), WriteAllError<()>>|
                #[trigger] logged(old(host).requests(), final(host).requests(), s.spec_bytes(), k, h, w, r),
    {
        let handle = match self.handle(host) {
            Some(handle) => handle,
            None => {
                proof {
                    let a = host.requests();
                    assert(a.subrange(0, a.len() as int) =~= a);
                    assert(logged(old(host).requests(), a, s.spec_bytes(), a.len() as int, None, Ok(()), None));
                }
                return None;
            },
        };
        let ghost log1 = host.requests();
        let w = handle.write_all::<H, ()>(host, s.as_bytes());
        proof {
            lemma_extends_trans(old(host).requests(), log1, host.requests());
        }
        let r = match w {
            Ok(()) => Some(()),
            Err(_) => None,
        };
        proof {
            let a = host.requests();
            assert(logged(old(host).requests(), a, s.spec_bytes(), log1.len() as int, Some(handle), w, r));
        }
        r
    }

    /// The console handle, for a last close at shutdown.
    pub fn into_handle<H: Semihost>(self, host: &mut Host<H>) -> (r: Option<Handle>)
        ensures
            handle_made(old(host).requests(), final(host).requests(), r),
    {
        self.handle(host)
    }
}

/// The requests `handle` makes in going from `before` to `after`, and what
/// it returns: none, when it finds the slot set, and then a handle; or one
/// Open request of `:tt` in append mode, and then a handle exactly when the
/// reply is a descriptor.
pub open spec fn handle_made(before: Seq<Request>, after: Seq<Request>, r: Option<Handle>) -> bool {
    &&& extends(before, after)
    &&& (after == before ==> r is Some)
    &&& (r is Some ==> r->Some_0.spec_fd() != 0)
    &&& (after != before ==> {
        &&& made(before, after)
        &&& only_one(before, after)
        &&& is_open_request(first(before, after), console_name(), 8)
        &&& (r is Some <==> opened(first(before, after).reply) is Ok)
    })
}

/// The requests `log` of `bytes` makes in going from `before` to `after`,
/// with `k` the point where `handle` left off, `h` what it returned and `w`
/// what `write_all` returned: the requests of `handle` up to `k`; then,
/// with a handle, those of `write_all` on its descriptor, `r` being `Some`
/// exactly when it succeeded; without one, nothing, and `None`.
pub open spec fn logged(
    before: Seq<Request>,
    after: Seq<Request>,
    bytes: Seq<u8>,
    k: int,
    h: Option<Handle>,
    w: Result<(), WriteAllError<()>>,
    r: Option<()>,
) -> bool {
    &&& before.len() <= k <= after.len()
    &&& handle_made(before, after.subrange(0, k), h)
    &&& match h {
        None => k == after.len() && r is None,
        Some(handle) => write_all_trace(handle.spec_fd(), bytes, after, k, w) && (r is Some <==> w is Ok),
    }
}

} // verus!
