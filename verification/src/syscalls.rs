//! The system-call dispatcher. The number arrives in `a7`, arguments in
//! `a0..a5`, and the result goes back into `a0`; `sepc` is advanced past
//! the `ecall` so `sret` resumes at the next instruction. The dispatcher
//! decides everything here on plain values: the caller performs the
//! user-memory copy for `write` before calling in, carries the returned
//! console bytes to the UART, and performs the shutdown on `Exit`.

use vstd::prelude::*;

use crate::page_table::AddressSpace;
use crate::page_table::same_vpns;
use crate::page_table::MapError;
use crate::page_table::EXECUTE;
use crate::page_table::READ;
use crate::page_table::USEFUL_FLAGS_MASK;
use crate::page_table::USER;
use crate::page_table::VALID;
use crate::page_table::WRITE;
use crate::trap::same_except_a0;
use crate::trap::TrapFrame;
use crate::userspace::Task;

verus! {

/// File descriptor 2 is treated as the host C library's debug channel:
/// its output is framed with a marker prefix and a newline.
pub const MLIBC_LOG_MAGIC_FD: u64 = 2;

/// Base of the mmap heap region: it grows upward from half a gigabyte.
pub const HEAP_BASE: u64 = 0x2000_0000;

/// The accepted mmap flag combination: anonymous and private.
pub const MMAP_REQUIRED_FLAGS: u64 = 0x22;

/// The system calls this kernel recognises, numbered by position:
/// exit is 0, write is 1, mmap is 2.
#[derive(Clone, Copy, Debug, PartialEq, Eq, Structural)]
pub enum Syscall {
    Exit,
    Write,
    Mmap,
}

/// The decoding of the `a7` register.
pub open spec fn spec_syscall(n: u64) -> Option<Syscall> {
    if n == 0 {
        Some(Syscall::Exit)
    } else if n == 1 {
        Some(Syscall::Write)
    } else if n == 2 {
        Some(Syscall::Mmap)
    } else {
        None
    }
}

impl Syscall {
    /// Decodes a syscall number; an unrecognised number is a fatal
    /// contract violation, reported as `None` for the caller to act on.
    pub fn from_number(n: u64) -> (r: Option<Syscall>)
        ensures
            r == spec_syscall(n),
    {
        if n == 0 {
            Some(Syscall::Exit)
        } else if n == 1 {
            Some(Syscall::Write)
        } else if n == 2 {
            Some(Syscall::Mmap)
        } else {
            None
        }
    }
}

/// The byte sequence the console receives for a `write`: the user's
/// bytes as they are, framed by the debug-channel marker and a trailing
/// newline exactly when the descriptor is the magic one.
pub open spec fn spec_write_output(fd: u64, data: Seq<u8>) -> Seq<u8> {
    if fd == MLIBC_LOG_MAGIC_FD {
        seq![0x6du8, 0x6cu8, 0x69u8, 0x62u8, 0x63u8, 0x3au8, 0x20u8] + data + seq![0x0au8]
    } else {
        data
    }
}

/// How many 4 KiB pages cover `len` bytes.
pub open spec fn spec_pages_of(len: u64) -> int {
    (len + 4095) / 4096
}

/// What the trap path must do after the dispatcher has run.
pub enum SyscallEffect {
    /// Log the exit status and request an SBI shutdown; never resumes.
    Exit { code: i64 },
    /// Send these bytes to the UART, then resume the user program.
    Emit { bytes: Vec<u8> },
    /// Resume the user program; everything already happened in here.
    Resume,
    /// A contract violation: report the trap and shut down.
    Fatal,
}

/// Builds the console output for a `write` system call.
pub fn write_output(fd: u64, data: &Vec<u8>) -> (r: Vec<u8>)
    ensures
        r@ == spec_write_output(fd, data@),
{
    let mut out: Vec<u8> = Vec::new();
    if fd == MLIBC_LOG_MAGIC_FD {
        out.push(0x6d);
        out.push(0x6c);
        out.push(0x69);
        out.push(0x62);
        out.push(0x63);
        out.push(0x3a);
        out.push(0x20);
    }
    let mut i: usize = 0;
    while i < data.len()
        invariant
            i <= data@.len(),
            out@.len() == i + if fd == MLIBC_LOG_MAGIC_FD {
                7int
            } else {
                0int
            },
            fd == MLIBC_LOG_MAGIC_FD ==> out@.subrange(0, 7) =~= seq![
                0x6du8,
                0x6cu8,
                0x69u8,
                0x62u8,
                0x63u8,
                0x3au8,
                0x20u8,
            ],
            forall|j: int|
                0 <= j < i ==> out@[j + if fd == MLIBC_LOG_MAGIC_FD {
                    7int
                } else {
                    0int
                }] == data@[j],
        decreases data@.len() - i,
    {
        out.push(data[i]);
        i = i + 1;
    }
    if fd == MLIBC_LOG_MAGIC_FD {
        out.push(0x0a);
    }
    proof {
        assert(out@ =~= spec_write_output(fd, data@));
    }
    out
}

/// Handles one environment call from user mode. `write_data` carries the
/// bytes already copied from the user buffer (`a1`, length `a2`) when
/// the call is a `write`; for every other call it is ignored. Returns
/// the effect the trap path must perform and the new `sepc`, which
/// always points just past the 4-byte `ecall` instruction. The return
/// value of a completed call is stored into the frame's `a0`. An
/// unknown number, or an mmap request with a non-zero address, with
/// flags other than anonymous-and-private, or which the allocator
/// cannot back, is fatal. The mmap `prot` argument (`a2`) is read and
/// deliberately not honoured: every anonymous mapping is created
/// readable and writable for user mode, so a program may store to the
/// page it was just handed whatever protection it asked for.
pub fn handle_syscall(
    frame: &mut TrapFrame,
    task: &mut Task,
    aspace: &mut AddressSpace,
    write_data: &Vec<u8>,
    sepc: u64,
) -> (r: (SyscallEffect, u64))
    requires
        old(aspace).wf(),
        old(frame).a7 == 1 ==> write_data@.len() == old(frame).a2,
        sepc + 4 <= u64::MAX,
    ensures
        final(aspace).wf(),
        r.1 == sepc + 4,
        same_except_a0(*old(frame), *final(frame)),
        old(frame).a7 == 0 ==> (r.0 matches SyscallEffect::Exit { code } && code == old(
            frame,
        ).a0 as i64),
        old(frame).a7 == 1 ==> {
            &&& (r.0 matches SyscallEffect::Emit { bytes } && bytes@ == spec_write_output(
                old(frame).a0,
                write_data@,
            ))
            &&& final(frame).a0 == old(frame).a2
            &&& *final(task) == *old(task)
            &&& *final(aspace) == *old(aspace)
        },
        old(frame).a7 == 2 && (old(frame).a0 != 0 || old(frame).a3 != MMAP_REQUIRED_FLAGS) ==> (
        r.0 is Fatal && *final(task) == *old(task) && *final(aspace) == *old(aspace)),
        old(frame).a7 == 2 && old(frame).a0 == 0 && old(frame).a3 == MMAP_REQUIRED_FLAGS && r.0
            is Resume ==> {
            &&& final(frame).a0 == HEAP_BASE + old(task).heap_pages_allocated * 4096
            &&& final(task).heap_pages_allocated == old(task).heap_pages_allocated + spec_pages_of(
                old(frame).a1,
            )
            &&& forall|i: int|
                0 <= i < spec_pages_of(old(frame).a1) ==> (#[trigger] final(aspace).translate(
                    (HEAP_BASE + old(task).heap_pages_allocated * 4096 + 4096 * i) as u64,
                ) matches Some((l, _, fl)) && l == 0 && fl == ((VALID | USER | READ | WRITE)
                    | VALID) & USEFUL_FLAGS_MASK)
            &&& forall|va: u64|
                (forall|i: int|
                    0 <= i < spec_pages_of(old(frame).a1) ==> !(#[trigger] same_vpns(
                        va,
                        (HEAP_BASE + old(task).heap_pages_allocated * 4096 + 4096 * i) as u64,
                    ))) ==> final(aspace).translate(va) == old(aspace).translate(va)
        },
        old(frame).a7 == 2 && old(frame).a0 == 0 && old(frame).a3 == MMAP_REQUIRED_FLAGS && r.0
            is Fatal ==> *final(task) == *old(task) && ({
            let start = HEAP_BASE + old(task).heap_pages_allocated * 4096;
            let n = spec_pages_of(old(frame).a1);
            ||| old(task).heap_pages_allocated > (u64::MAX - HEAP_BASE) / 4096
            ||| n > (u64::MAX - start) / 4096
            ||| exists|i: int|
                0 <= i < n && #[trigger] final(aspace).translate((start + 4096 * i) as u64) is Some
            ||| exists|i: int|
                0 <= i < n && !(#[trigger] final(aspace).path_ok(0, (start + 4096 * i) as u64, 2))
            ||| final(aspace).bump.pos + 4096 * 3 > final(aspace).bump.len
        }),
        old(frame).a7 == 2 ==> (r.0 is Resume || r.0 is Fatal),
        old(frame).a7 > 2 ==> (r.0 is Fatal && *final(task) == *old(task) && *final(aspace)
            == *old(aspace)),
{
    let new_sepc = sepc + 4;
    match Syscall::from_number(frame.a7) {
        Some(Syscall::Exit) => (SyscallEffect::Exit { code: frame.a0 as i64 }, new_sepc),
        Some(Syscall::Write) => {
            let fd = frame.a0;
            let size = frame.a2;
            let bytes = write_output(fd, write_data);
            frame.a0 = size;
            (SyscallEffect::Emit { bytes }, new_sepc)
        },
        Some(Syscall::Mmap) => {
            let addr = frame.a0;
            let len = frame.a1;
            let flags = frame.a3;
            if addr != 0 || flags != MMAP_REQUIRED_FLAGS {
                return (SyscallEffect::Fatal, new_sepc);
            }
            let num_pages = len / 4096 + if len % 4096 != 0 {
                1
            } else {
                0
            };
            proof {
                assert(num_pages == spec_pages_of(len)) by (nonlinear_arith)
                    requires
                        num_pages == len / 4096 + if len % 4096 != 0 {
                            1u64
                        } else {
                            0u64
                        },
                ;
            }
            if task.heap_pages_allocated > (u64::MAX - HEAP_BASE) / 4096 {
                return (SyscallEffect::Fatal, new_sepc);
            }
            proof {
                let hp = task.heap_pages_allocated;
                assert(hp * 4096 <= u64::MAX - HEAP_BASE) by (nonlinear_arith)
                    requires
                        hp <= (u64::MAX - HEAP_BASE) / 4096,
                ;
            }
            let start = HEAP_BASE + task.heap_pages_allocated * 4096;
            if num_pages > (u64::MAX - start) / 4096 {
                return (SyscallEffect::Fatal, new_sepc);
            }
            proof {
                assert(start + 4096 * num_pages <= u64::MAX) by (nonlinear_arith)
                    requires
                        num_pages <= (u64::MAX - start) / 4096,
                        start <= u64::MAX,
                ;
            }
            proof {
                assert((VALID | USER | READ | WRITE) & (READ | WRITE | EXECUTE) != 0)
                    by (bit_vector);
            }
            match aspace.map_range(start, num_pages, VALID | USER | READ | WRITE) {
                Ok(_) => {
                    task.heap_pages_allocated = task.heap_pages_allocated + num_pages;
                    frame.a0 = start;
                    (SyscallEffect::Resume, new_sepc)
                },
                Err(_) => (SyscallEffect::Fatal, new_sepc),
            }
        },
        None => (SyscallEffect::Fatal, new_sepc),
    }
}

} // verus!
