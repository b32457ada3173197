//! The serial console's decisions: which physical address a byte must be
//! stored to (the UART moves into the kernel's higher-half window once
//! paging is live), and how text is sanitised before it reaches the
//! wire. The volatile store itself is a hardware access and happens
//! outside the library, at the address computed here.

use vstd::prelude::*;

verus! {

/// The UART's physical base address on the QEMU virt machine.
pub const UART_PHYS_BASE: u64 = 0x1000_0000;

/// Offset of the kernel's higher-half window: root slot 511 maps the
/// zeroth gigabyte of physical memory at this virtual base.
pub const KERNEL_WINDOW_BASE: u64 = 0xffff_ffff_c000_0000;

/// True for bytes the console forwards unchanged: the escape byte (so
/// ANSI colour sequences pass through), graphic ASCII, and ASCII
/// whitespace. Everything else is binary noise.
pub open spec fn console_passes(b: u8) -> bool {
    ||| b == 0x1b
    ||| 0x21 <= b <= 0x7e
    ||| b == 0x20
    ||| b == 0x09
    ||| b == 0x0a
    ||| b == 0x0c
    ||| b == 0x0d
}

/// What the console sends for a text byte: the byte itself, or `?` in
/// place of anything that is neither printable, whitespace nor escape.
pub open spec fn console_byte(b: u8) -> u8 {
    if console_passes(b) {
        b
    } else {
        0x3f
    }
}

/// The console's state: a one-shot flag that flips when paging comes up
/// and the UART must be reached through the kernel window.
pub struct UartLogger {
    pub paging_on: bool,
}

impl UartLogger {
    /// A console for the pre-paging world, writing to the UART's
    /// physical address.
    pub fn new() -> (r: UartLogger)
        ensures
            !r.paging_on,
    {
        UartLogger { paging_on: false }
    }

    /// One-shot signal that the higher-half map is installed: from now
    /// on console stores go through the kernel window.
    pub fn paging_initialised(&mut self)
        ensures
            final(self).paging_on,
    {
        self.paging_on = true;
    }

    /// The store a raw byte write must perform: the byte is sent as is
    /// (syscall `write` output is not sanitised), to the physical UART
    /// before paging and to its higher-half alias after.
    pub fn write(&self, c: u8) -> (r: (u64, u8))
        ensures
            r.1 == c,
            r.0 == if self.paging_on {
                (UART_PHYS_BASE + KERNEL_WINDOW_BASE) as u64
            } else {
                UART_PHYS_BASE
            },
    {
        let mut addr: u64 = UART_PHYS_BASE;
        if self.paging_on {
            addr = addr + KERNEL_WINDOW_BASE;
        }
        (addr, c)
    }

    /// The bytes the console sends for a piece of text: each byte either
    /// passes or is replaced by `?`, so log lines keep their colour
    /// escapes while binary data cannot corrupt the terminal.
    pub fn sanitise(&self, text: &[u8]) -> (r: Vec<u8>)
        ensures
            r@.len() == text@.len(),
            forall|i: int| 0 <= i < text@.len() ==> r@[i] == console_byte(text@[i]),
    {
        let mut out: Vec<u8> = Vec::new();
        let mut i: usize = 0;
        while i < text.len()
            invariant
                i <= text@.len(),
                out@.len() == i,
                forall|j: int| 0 <= j < i ==> out@[j] == console_byte(text@[j]),
            decreases text@.len() - i,
        {
            let b = text[i];
            if b == 0x1b || (0x21 <= b && b <= 0x7e) || b == 0x20 || b == 0x09 || b == 0x0a || b == 0x0c || b == 0x0d {
                out.push(b);
            } else {
                out.push(0x3f);
            }
            i = i + 1;
        }
        out
    }
}

/// The log severities the kernel distinguishes, in increasing order of
/// urgency.
#[derive(Clone, Copy, Debug, PartialEq, Eq, Structural)]
pub enum LogSeverity {
    Trace,
    Debug,
    Info,
    Warn,
    Error,
}

/// The ANSI colour a log line of each severity is printed in: cyan,
/// blue, green, yellow, red.
pub fn severity_colour(level: LogSeverity) -> (r: u8)
    ensures
        r == match level {
            LogSeverity::Trace => 36u8,
            LogSeverity::Debug => 34u8,
            LogSeverity::Info => 32u8,
            LogSeverity::Warn => 33u8,
            LogSeverity::Error => 31u8,
        },
{
    match level {
        LogSeverity::Trace => 36,
        LogSeverity::Debug => 34,
        LogSeverity::Info => 32,
        LogSeverity::Warn => 33,
        LogSeverity::Error => 31,
    }
}

/// Whether the colour is reset straight after the level tag; warnings
/// and errors keep their colour until the end of the line.
pub fn severity_resets_colour(level: LogSeverity) -> (r: bool)
    ensures
        r == match level {
            LogSeverity::Trace | LogSeverity::Debug | LogSeverity::Info => true,
            LogSeverity::Warn | LogSeverity::Error => false,
        },
{
    match level {
        LogSeverity::Trace | LogSeverity::Debug | LogSeverity::Info => true,
        LogSeverity::Warn | LogSeverity::Error => false,
    }
}

} // verus!
