//! ARM semihosting: typed access to the file, console and clock services of
//! a debug host, reached through a trap instruction.
//!
//! The host is any [`Semihost`]: on a target, the trap instruction that
//! [`syscall::trap_for`] selects. Every operation decodes the host's single
//! result word, and what the library states of its results holds whatever
//! word comes back.

pub mod io;
pub mod print;
pub mod syscall;

pub use io::{write_char as print_char, write_cstr as print_cstr};
pub use io::{Errno, Handle, HeapInfo, Mode, WriteAllError};
pub use print::{print_str, CharPrinter, GlobalLogger};
pub use syscall::{syscall, syscall0, Exception, Host, Semihost, Syscall};
