//! Core logic of a small Sv39 RISC-V kernel: the physical-frame bump
//! allocator, the three-level page-table engine, the trap-frame and
//! syscall dispatcher, and the userspace bring-up (ELF segment loading,
//! stack construction). Everything here works on plain values; the
//! hardware edges (CSR writes, volatile stores, SBI calls) live outside
//! the library and act on what these functions decide.

use vstd::prelude::*;

pub mod allocator;
pub mod logger;
pub mod page_table;
pub mod syscalls;
pub mod trap;
pub mod userspace;

pub use allocator::BumpAllocator;
pub use logger::UartLogger;
pub use page_table::AddressSpace;
pub use page_table::PageTable;
pub use trap::TrapFrame;
pub use userspace::Task;
