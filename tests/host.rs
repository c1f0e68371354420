use semihosting::io::{
    clock, is_error, parse_cmdline, read_char, remove, rename, report_exception, system, tick_freq,
    time, tmpnam, cmdline_result, errno, f_len, features, get_cmdline, heapinfo, is_feature_magic, is_tty,
    map_res, next_write_step, open, open_result, read, seek, to_address, tty_result,
    FeaturesError, OpenError, WriteStep, FAILURE,
};
use semihosting::print::{adopt, cached, console_path};
use semihosting::syscall::{syscall, syscall0, trap_for, InstructionSet, Protocol, TrapKind};
use semihosting::{
    print_char, print_cstr, print_str, CharPrinter, Exception, GlobalLogger, Handle, HeapInfo, Host,
    Mode, Semihost, Syscall, WriteAllError,
};

/// A host in memory. Writes are taken `chunk` bytes at a time (all of them
/// when `chunk` is zero) unless `write_replies` scripts the replies.
#[derive(Default)]
struct SimHost {
    chunk: usize,
    write_replies: Vec<usize>,
    writes: usize,
    written: Vec<u8>,
    written_fds: Vec<usize>,
    console: Vec<u8>,
    opens: Vec<(Vec<u8>, usize)>,
    open_replies: Vec<usize>,
    next_fd: usize,
    closes: Vec<usize>,
    reply: usize,
    errno: usize,
    file: Vec<u8>,
    words: Vec<usize>,
}

impl SimHost {
    fn new() -> SimHost {
        SimHost { next_fd: 3, ..SimHost::default() }
    }
}

impl Semihost for SimHost {
    fn trap(&mut self, op: Syscall, _message: usize) -> usize {
        match op {
            Syscall::Errno => self.errno,
            _ => self.reply,
        }
    }

    fn trap_block(&mut self, op: Syscall, block: &mut [usize]) -> usize {
        match op {
            Syscall::Close => {
                self.closes.push(block[0]);
                0
            }
            Syscall::FLen => self.file.len(),
            Syscall::HeapInfo => {
                block.copy_from_slice(&self.words);
                0
            }
            _ => self.reply,
        }
    }

    fn trap_send(&mut self, op: Syscall, block: &mut [usize], _slot: usize, data: &[u8]) -> usize {
        match op {
            Syscall::Open => {
                self.opens.push((data.to_vec(), block[1]));
                if self.open_replies.is_empty() {
                    let fd = self.next_fd;
                    self.next_fd += 1;
                    fd
                } else {
                    self.open_replies.remove(0)
                }
            }
            Syscall::Write => {
                assert_eq!(block[2], data.len());
                self.writes += 1;
                self.written_fds.push(block[0]);
                let left = if !self.write_replies.is_empty() {
                    self.write_replies.remove(0)
                } else if self.chunk == 0 || data.len() <= self.chunk {
                    0
                } else {
                    data.len() - self.chunk
                };
                if left <= data.len() {
                    self.written.extend_from_slice(&data[..data.len() - left]);
                }
                left
            }
            Syscall::WriteC => {
                self.console.push(data[0]);
                0
            }
            Syscall::Write0 => {
                self.console.extend_from_slice(&data[..data.len() - 1]);
                0
            }
            _ => self.reply,
        }
    }

    fn trap_receive(&mut self, op: Syscall, block: &mut [usize], _slot: usize, data: &mut [u8]) -> usize {
        match op {
            Syscall::Read => {
                let n = data.len().min(self.file.len());
                data[..n].copy_from_slice(&self.file[..n]);
                self.file.drain(..n);
                data.len() - n
            }
            Syscall::GetCmdline => {
                let n = self.file.len().min(data.len());
                data[..n].copy_from_slice(&self.file[..n]);
                block[1] = self.file.len() - 1;
                self.reply
            }
            _ => self.reply,
        }
    }

    fn trap_send_two(&mut self, _op: Syscall, _block: &mut [usize], _first: &[u8], _second: &[u8]) -> usize {
        self.reply
    }
}

fn path(name: &str) -> Vec<u8> {
    let mut p = name.as_bytes().to_vec();
    p.push(0);
    p
}

#[test]
fn print() {
    let mut host = Host::new(SimHost::new());
    print_str(&mut host, "hi");
    CharPrinter.write_str(&mut host, &format!("{}", 5));
    assert_eq!(host.raw.console, b"hi5".to_vec());
}

#[test]
fn print_char_and_cstr_reach_console() {
    let mut host = Host::new(SimHost::new());
    print_char(&mut host, b'x');
    print_cstr(&mut host, &path("yz"));
    assert_eq!(host.raw.console, b"xyz".to_vec());
}

#[test]
fn open_gives_nonzero_descriptor() {
    let mut host = Host::new(SimHost::new());
    host.raw.open_replies = vec![7, FAILURE, 0];
    let h = Handle::open::<SimHost, ()>(&mut host, &path("file.txt"), Mode::read_write());
    assert_eq!(h.unwrap().fd(), 7);
    assert_eq!(host.raw.opens[0], (path("file.txt"), 4));
    assert!(matches!(
        Handle::open::<SimHost, ()>(&mut host, &path("x"), Mode::read_only()),
        Err(OpenError::Io(()))
    ));
    assert!(matches!(
        open::<SimHost, ()>(&mut host, &path("x"), Mode::read_only()),
        Err(OpenError::Invalid)
    ));
}

#[test]
fn open_result_decodes_words() {
    let mut host = Host::new(SimHost::new());
    assert!(matches!(open_result::<SimHost, ()>(&mut host, 5), Ok(5)));
    assert!(matches!(open_result::<SimHost, ()>(&mut host, 0), Err(OpenError::Invalid)));
    assert!(matches!(open_result::<SimHost, ()>(&mut host, usize::MAX), Err(OpenError::Io(()))));
    host.raw.errno = 2;
    assert!(matches!(open_result::<SimHost, isize>(&mut host, usize::MAX), Err(OpenError::Io(2))));
    assert!(matches!(open_result::<SimHost, isize>(&mut host, 0), Err(OpenError::Invalid)));
}

#[test]
fn map_res_separates_failure_word() {
    let mut host = Host::new(SimHost::new());
    host.raw.errno = 9;
    assert_eq!(map_res::<SimHost, ()>(&mut host, 0), Ok(0));
    assert_eq!(map_res::<SimHost, ()>(&mut host, 42), Ok(42));
    assert_eq!(map_res::<SimHost, ()>(&mut host, usize::MAX - 1), Ok(usize::MAX - 1));
    assert_eq!(map_res::<SimHost, ()>(&mut host, usize::MAX), Err(()));
    assert_eq!(map_res::<SimHost, isize>(&mut host, usize::MAX), Err(9));
    assert_eq!(errno(&mut host), 9);
}

#[test]
fn write_all_in_chunks() {
    let data: Vec<u8> = (0u8..10).collect();
    for (k, calls) in [(1usize, 10usize), (3, 4), (5, 2), (9, 2), (10, 1)] {
        let mut host = Host::new(SimHost::new());
        host.raw.chunk = k;
        let h = Handle::from_fd(4);
        assert!(h.write_all::<SimHost, ()>(&mut host, &data).is_ok());
        assert_eq!(host.raw.writes, calls);
        assert_eq!(host.raw.written, data);
        assert!(host.raw.written_fds.iter().all(|fd| *fd == 4));
    }
}

#[test]
fn write_all_of_nothing_makes_no_call() {
    let mut host = Host::new(SimHost::new());
    let h = Handle::from_fd(4);
    assert!(h.write_all::<SimHost, ()>(&mut host, &[]).is_ok());
    assert_eq!(host.raw.writes, 0);
}

#[test]
fn write_all_stops_when_nothing_is_taken() {
    let mut host = Host::new(SimHost::new());
    host.raw.write_replies = vec![2, 2];
    let h = Handle::from_fd(4);
    let r = h.write_all::<SimHost, ()>(&mut host, b"abcd");
    assert!(matches!(r, Err(WriteAllError::Incomplete(2))));
    assert_eq!(host.raw.writes, 2);
    assert_eq!(host.raw.written, b"ab".to_vec());

    let mut host = Host::new(SimHost::new());
    host.raw.write_replies = vec![4];
    let r = h.write_all::<SimHost, ()>(&mut host, b"abcd");
    assert!(matches!(r, Err(WriteAllError::Incomplete(4))));
    assert_eq!(host.raw.writes, 1);
}

#[test]
fn write_all_rejects_oversized_reply() {
    let mut host = Host::new(SimHost::new());
    host.raw.write_replies = vec![5];
    let h = Handle::from_fd(4);
    let r = h.write_all::<SimHost, ()>(&mut host, b"abcd");
    assert!(matches!(r, Err(WriteAllError::Invalid)));
    assert_eq!(host.raw.writes, 1);

    let mut host = Host::new(SimHost::new());
    host.raw.write_replies = vec![1, 9];
    let r = h.write_all::<SimHost, ()>(&mut host, b"abcd");
    assert!(matches!(r, Err(WriteAllError::Invalid)));
    assert_eq!(host.raw.writes, 2);
}

#[test]
fn write_all_passes_host_failure_on() {
    let mut host = Host::new(SimHost::new());
    host.raw.write_replies = vec![usize::MAX];
    host.raw.errno = 5;
    let h = Handle::from_fd(4);
    let r = h.write_all::<SimHost, isize>(&mut host, b"abcd");
    assert!(matches!(r, Err(WriteAllError::Io(5))));
}

#[test]
fn write_step_decisions() {
    assert_eq!(next_write_step(10, 0), WriteStep::Done);
    assert_eq!(next_write_step(10, 10), WriteStep::Stalled);
    assert_eq!(next_write_step(10, 11), WriteStep::Invalid);
    assert_eq!(next_write_step(10, 3), WriteStep::Advance(7));
}

#[test]
fn read_and_write_count_what_was_left() {
    let mut host = Host::new(SimHost::new());
    host.raw.file = b"hey".to_vec();
    let h = Handle::from_fd(6);
    let mut buf = [0u8; 5];
    assert_eq!(h.read::<SimHost, ()>(&mut host, &mut buf), Ok(2));
    assert_eq!(&buf[..3], b"hey");
    host.raw.file = b"abcdef".to_vec();
    let mut buf = [0u8; 4];
    assert_eq!(read::<SimHost, ()>(&mut host, 6, &mut buf), Ok(0));

    let mut host = Host::new(SimHost::new());
    host.raw.write_replies = vec![0, 3];
    assert_eq!(h.write::<SimHost, ()>(&mut host, b"abc"), Ok(0));
    assert_eq!(semihosting::io::write::<SimHost, ()>(&mut host, 6, b"abc"), Ok(3));
    host.raw.write_replies = vec![3];
    assert!(matches!(
        h.write_all::<SimHost, ()>(&mut host, b"abc"),
        Err(WriteAllError::Incomplete(3))
    ));
}

#[test]
fn is_tty_only_on_one() {
    let mut host = Host::new(SimHost::new());
    host.raw.reply = 1;
    assert_eq!(is_tty::<SimHost, ()>(&mut host, 1), Ok(()));
    for raw in [0usize, 2, usize::MAX] {
        host.raw.reply = raw;
        assert_eq!(is_tty::<SimHost, ()>(&mut host, 1), Err(()));
        assert_eq!(tty_result::<SimHost, ()>(&mut host, raw), Err(()));
    }
    host.raw.errno = 25;
    assert_eq!(tty_result::<SimHost, isize>(&mut host, 0), Err(25));
    assert_eq!(tty_result::<SimHost, isize>(&mut host, 1), Ok(()));
}

#[test]
fn seek_close_and_length() {
    let mut host = Host::new(SimHost::new());
    host.raw.reply = 0;
    let h = Handle::from_fd(8);
    assert_eq!(h.seek_set::<SimHost, ()>(&mut host, 3), Ok(()));
    host.raw.reply = usize::MAX;
    assert_eq!(seek::<SimHost, ()>(&mut host, 8, 3), Err(()));
    host.raw.file = b"12345".to_vec();
    assert_eq!(f_len::<SimHost, ()>(&mut host, 8), Ok(5));
    assert_eq!(h.close::<SimHost, ()>(&mut host), Ok(()));
    assert_eq!(host.raw.closes, vec![8]);
}

#[test]
fn logger_opens_console_once() {
    let mut host = Host::new(SimHost::new());
    host.raw.next_fd = 11;
    let logger = GlobalLogger::new();
    assert_eq!(logger.log(&mut host, "one"), Some(()));
    assert_eq!(logger.log(&mut host, "two"), Some(()));
    assert_eq!(host.raw.opens.len(), 1);
    assert_eq!(host.raw.opens[0], (path(":tt"), 8));
    assert_eq!(host.raw.written, b"onetwo".to_vec());
    assert_eq!(host.raw.written_fds, vec![11, 11]);
    assert_eq!(logger.handle(&mut host).unwrap().fd(), 11);
    assert_eq!(logger.into_handle(&mut host).unwrap().fd(), 11);
}

#[test]
fn logger_without_console_gives_none() {
    let mut host = Host::new(SimHost::new());
    host.raw.open_replies = vec![usize::MAX];
    let logger = GlobalLogger::new();
    assert_eq!(logger.log(&mut host, "lost"), None);
    assert!(host.raw.written.is_empty());
}

#[test]
fn racing_logger_callers_settle_on_first() {
    assert_eq!(adopt(Ok(0), 9), 9);
    assert_eq!(adopt(Err(7), 9), 7);
    assert_eq!(adopt(Err(9), 7), 9);
    assert_eq!(console_path(), path(":tt"));
}

#[test]
fn operation_and_reason_codes() {
    assert_eq!(Syscall::Open.code(), 1);
    assert_eq!(Syscall::Seek.code(), 10);
    assert_eq!(Syscall::FLen.code(), 12);
    assert_eq!(Syscall::Errno.code(), 19);
    assert_eq!(Syscall::GetCmdline.code(), 21);
    assert_eq!(Syscall::ReportException.code(), 24);
    assert_eq!(Syscall::ReportExceptionExtended.code(), 32);
    assert_eq!(Syscall::Elapsed.code(), 48);
    assert_eq!(Syscall::TickFreq.code(), 49);
    assert_eq!(Exception::BranchThroughZero.code(), 0x20000);
    assert_eq!(Exception::FIQ.code(), 0x20007);
    assert_eq!(Exception::BreakPoint.code(), 0x20020);
    assert_eq!(Exception::ApplicationExit.code(), 0x20026);
    assert_eq!(Exception::OSSpecific.code(), 0x20029);
}

#[test]
fn trap_encodings() {
    let t = trap_for(InstructionSet::Arm, Protocol::Legacy);
    assert_eq!((t.kind, t.immediate, t.encoding, t.width), (TrapKind::Svc, 0x123456, 0xEF123456, 32));
    let t = trap_for(InstructionSet::Thumb, Protocol::Legacy);
    assert_eq!((t.kind, t.immediate, t.encoding, t.width), (TrapKind::Svc, 0xab, 0xDFAB, 16));
    let t = trap_for(InstructionSet::ThumbM, Protocol::Legacy);
    assert_eq!((t.kind, t.immediate, t.encoding, t.width), (TrapKind::Bkpt, 0xab, 0xBEAB, 16));
    let t = trap_for(InstructionSet::Arm, Protocol::V2);
    assert_eq!((t.kind, t.encoding, t.width), (TrapKind::Hlt, 0xE10F0070, 32));
    let t = trap_for(InstructionSet::ThumbM, Protocol::V2);
    assert_eq!((t.kind, t.encoding, t.width), (TrapKind::Hlt, 0xBABC, 16));
}

#[test]
fn mode_bits() {
    assert_eq!(Mode::read_only().bits(), 0);
    assert_eq!(Mode::binary().bits(), 1);
    assert_eq!(Mode::append().union(Mode::binary()).bits(), 9);
    assert_eq!(Mode::read_write().union(Mode::binary()).bits(), 5);
}

#[test]
fn heap_info_words() {
    let mut host = Host::new(SimHost::new());
    host.raw.words = vec![0x2000_0000, 0, 0x2001_0000, 0x2000_8000];
    let info = heapinfo(&mut host);
    assert_eq!(
        info,
        HeapInfo {
            heap_base: Some(0x2000_0000),
            heap_limit: None,
            stack_base: Some(0x2001_0000),
            stack_limit: Some(0x2000_8000),
        }
    );
    assert_eq!(to_address(0), None);
    assert_eq!(to_address(17), Some(17));
}

#[test]
fn command_line_length() {
    let mut host = Host::new(SimHost::new());
    host.raw.file = path("prog -v");
    host.raw.reply = 0;
    let mut buf = [0u8; 80];
    assert_eq!(get_cmdline(&mut host, &mut buf), Ok(7));
    assert_eq!(&buf[..8], &path("prog -v")[..]);
    assert_eq!(cmdline_result(0, &[100, 12]), Ok(12));
    assert_eq!(cmdline_result(usize::MAX, &[100, 12]), Err(()));
    assert_eq!(cmdline_result(0, &[100]), Err(()));
}

#[test]
fn feature_file_magic() {
    assert!(is_feature_magic(b"SHFB"));
    assert!(!is_feature_magic(b"SHFA"));
    assert!(!is_feature_magic(b"SHF"));

    let mut host = Host::new(SimHost::new());
    host.raw.file = b"SHFB\x03".to_vec();
    let h = features::<SimHost, ()>(&mut host).unwrap();
    assert_eq!(host.raw.opens[0], (path(":semihosting-features"), 0));
    assert_eq!(h.fd(), 3);
    assert_eq!(host.raw.file, vec![3]);

    let mut host = Host::new(SimHost::new());
    host.raw.file = b"SH".to_vec();
    assert!(matches!(features::<SimHost, ()>(&mut host), Err(FeaturesError::TooShort(2))));
    assert_eq!(host.raw.closes, vec![3]);

    let mut host = Host::new(SimHost::new());
    host.raw.file = b"ABCDE".to_vec();
    assert!(matches!(features::<SimHost, ()>(&mut host), Err(FeaturesError::BadMagic)));
}

#[test]
fn command_line_to_closure() {
    let mut host = Host::new(SimHost::new());
    host.raw.file = path("prog -v");
    host.raw.reply = 0;
    assert_eq!(parse_cmdline(&mut host, |s: Vec<u8>| s), Ok(path("prog -v")));

    host.raw.reply = usize::MAX;
    assert_eq!(parse_cmdline(&mut host, |s: Vec<u8>| s.len()), Err(()));

    host.raw.reply = 0;
    host.raw.file = vec![b'a'; 81];
    assert_eq!(parse_cmdline(&mut host, |s: Vec<u8>| s.len()), Err(()));

    host.raw.file = b"ab\0cd\0".to_vec();
    assert_eq!(parse_cmdline(&mut host, |s: Vec<u8>| s.len()), Err(()));

    host.raw.file = vec![b'x'; 79];
    host.raw.file.push(0);
    assert_eq!(parse_cmdline(&mut host, |s: Vec<u8>| s.len()), Ok(80));
}

#[test]
fn feature_file_missing() {
    let mut host = Host::new(SimHost::new());
    host.raw.open_replies = vec![usize::MAX];
    host.raw.errno = 2;
    assert!(matches!(features::<SimHost, isize>(&mut host), Err(FeaturesError::Io(2))));
}

#[test]
fn catalog_replies() {
    let mut host = Host::new(SimHost::new());
    host.raw.reply = 1_700_000_000;
    assert_eq!(time(&mut host), 1_700_000_000);
    assert_eq!(syscall0(&mut host, Syscall::Time), 1_700_000_000);
    assert_eq!(syscall(&mut host, Syscall::Clock, 0), 1_700_000_000);
    host.raw.reply = 250;
    assert_eq!(clock(&mut host), Ok(250));
    assert_eq!(tick_freq(&mut host), Ok(250));
    assert_eq!(system::<SimHost, ()>(&mut host, &path("ls")), Ok(250));
    assert_eq!(remove::<SimHost, ()>(&mut host, &path("f")), Ok(250));
    assert_eq!(rename::<SimHost, ()>(&mut host, &path("a"), &path("b")), Ok(250));
    assert_eq!(report_exception(&mut host, Exception::ApplicationExit), 250);
    host.raw.reply = 0x141;
    assert_eq!(read_char(&mut host), 0x41);
    assert!(is_error(&mut host, 5));
    host.raw.reply = 0;
    assert!(!is_error(&mut host, 5));
    let mut name = [0u8; 20];
    assert_eq!(tmpnam(&mut host, 1, &mut name), Ok(()));
    host.raw.reply = usize::MAX;
    assert_eq!(clock(&mut host), Err(()));
    assert_eq!(tick_freq(&mut host), Err(()));
    assert_eq!(tmpnam(&mut host, 1, &mut name), Err(()));
    assert_eq!(system::<SimHost, ()>(&mut host, &path("ls")), Err(()));
}

#[test]
fn logger_reports_untaken_write() {
    let mut host = Host::new(SimHost::new());
    host.raw.write_replies = vec![4];
    let logger = GlobalLogger::new();
    assert_eq!(logger.log(&mut host, "full"), None);
    assert_eq!(host.raw.writes, 1);
    assert_eq!(host.raw.opens.len(), 1);
}

#[test]
fn logger_slot_values() {
    assert_eq!(cached(0), None);
    assert_eq!(cached(6), Some(6));
}

#[test]
fn feature_file_zero_descriptor() {
    let mut host = Host::new(SimHost::new());
    host.raw.open_replies = vec![0];
    assert!(matches!(features::<SimHost, ()>(&mut host), Err(FeaturesError::Invalid)));
}
