use mlibc_demo_os::allocator::{init as allocator_init, BumpAllocator};
use mlibc_demo_os::logger::{severity_colour, severity_resets_colour, LogSeverity, UartLogger};
use mlibc_demo_os::page_table::{AddressSpace, MapError, PageTable};
use mlibc_demo_os::syscalls::{handle_syscall, Syscall, SyscallEffect};
use mlibc_demo_os::trap::{is_syscall_trap, TrapFrame};
use mlibc_demo_os::userspace::{initial_stack_frame, map_stack, parse_elf, Task};

fn fresh_aspace() -> AddressSpace {
    let bump = BumpAllocator::new(0x8000_0000, 0x40_0000);
    AddressSpace::new(bump).unwrap()
}

#[test]
fn allocator_monotone_and_aligned() {
    let mut a = BumpAllocator::new(0x8000_0000, 0x10000);
    let p1 = a.allocate(100, 8).unwrap();
    let p2 = a.allocate(100, 64).unwrap();
    let p3 = a.allocate(4096, 4096).unwrap();
    assert!(p1 + 100 <= p2);
    assert!(p2 + 100 <= p3);
    assert_eq!(p1 % 8, 0);
    assert_eq!(p2 % 64, 0);
    assert_eq!(p3 % 4096, 0);
    assert_eq!(p1, 0x8000_0000);
}

#[test]
fn allocator_exhaustion_leaves_state() {
    let mut a = BumpAllocator::new(0x8000_0000, 0x2000);
    let p1 = a.allocate(0x1000, 0x1000).unwrap();
    assert_eq!(p1, 0x8000_0000);
    let pos_before = a.pos();
    assert!(a.allocate(0x2000, 8).is_none());
    assert_eq!(a.pos(), pos_before);
    assert!(a.allocate(8, 8192).is_none());
    assert_eq!(a.pos(), pos_before);
    assert!(a.allocate(0x1000, 1).is_some());
}

#[test]
fn page_table_round_trip() {
    let mut aspace = fresh_aspace();
    let pa = aspace.map_page(0x4000, 2 | 4).unwrap();
    let (level, walked_pa, flags) = aspace.walk_page(0x4000).unwrap();
    assert_eq!(level, 0);
    assert_eq!(walked_pa, pa);
    assert_eq!(flags, (2 | 4 | 1) & 0x3f);
    assert_eq!(pa % 4096, 0);
}

#[test]
fn remap_is_rejected() {
    let mut aspace = fresh_aspace();
    let pa = aspace.map_page(0x4000, 2 | 4).unwrap();
    assert_eq!(aspace.map_page(0x4000, 2), Err(MapError::AlreadyMapped));
    // The mapping is exactly what the first call installed.
    let (_, walked_pa, flags) = aspace.walk_page(0x4000).unwrap();
    assert_eq!(walked_pa, pa);
    assert_eq!(flags, 7);
}

#[test]
fn higher_half_shape() {
    let mut root = PageTable::new();
    root.map_higher_half();
    assert_eq!(root.entries[0] & 1, 0);
    for i in 1..511u64 {
        let e = root.entries[i as usize];
        assert_eq!((e & 0xff_ffff_ffff_fc00) >> 10, i << 18);
        assert_eq!(e & 0x3f, 2 | 4 | 8 | 32 | 1);
    }
    let e = root.entries[511];
    assert_eq!((e & 0xff_ffff_ffff_fc00) >> 10, 0);
    assert_eq!(e & 0x3f, 2 | 4 | 8 | 32 | 1);
}

#[test]
fn scenario_hello_write() {
    let mut aspace = fresh_aspace();
    let mut task = Task::new();
    let mut frame = TrapFrame::zeroed();
    frame.a7 = 1;
    frame.a0 = 1;
    frame.a2 = 2;
    let data = vec![b'h', b'i'];
    let (effect, new_sepc) = handle_syscall(&mut frame, &mut task, &mut aspace, &data, 0x1000);
    match effect {
        SyscallEffect::Emit { bytes } => assert_eq!(bytes, vec![b'h', b'i']),
        _ => panic!("expected console output"),
    }
    assert_eq!(frame.a0, 2);
    assert_eq!(new_sepc, 0x1004);
}

#[test]
fn scenario_mlibc_debug_channel() {
    let mut aspace = fresh_aspace();
    let mut task = Task::new();
    let mut frame = TrapFrame::zeroed();
    frame.a7 = 1;
    frame.a0 = 2;
    frame.a2 = 1;
    let data = vec![b'x'];
    let (effect, _) = handle_syscall(&mut frame, &mut task, &mut aspace, &data, 0x1000);
    match effect {
        SyscallEffect::Emit { bytes } => assert_eq!(bytes, b"mlibc: x\n".to_vec()),
        _ => panic!("expected console output"),
    }
    assert_eq!(frame.a0, 1);
}

#[test]
fn scenario_mmap_one_page() {
    let mut aspace = fresh_aspace();
    let mut task = Task::new();
    let mut frame = TrapFrame::zeroed();
    frame.a7 = 2;
    frame.a0 = 0;
    frame.a1 = 4096;
    frame.a3 = 0x22;
    let empty = Vec::new();
    let (effect, _) = handle_syscall(&mut frame, &mut task, &mut aspace, &empty, 0x1000);
    assert!(matches!(effect, SyscallEffect::Resume));
    assert_eq!(frame.a0, 0x2000_0000);
    assert_eq!(task.heap_pages_allocated, 1);
    let (level, _, flags) = aspace.walk_page(0x2000_0000).unwrap();
    assert_eq!(level, 0);
    assert_eq!(flags & 16, 16); // user-accessible
    assert_eq!(flags & (2 | 4), 2 | 4); // readable and writable
    // A second identical call gets the next page.
    let mut frame2 = TrapFrame::zeroed();
    frame2.a7 = 2;
    frame2.a1 = 4096;
    frame2.a3 = 0x22;
    let (effect2, _) = handle_syscall(&mut frame2, &mut task, &mut aspace, &empty, 0x1000);
    assert!(matches!(effect2, SyscallEffect::Resume));
    assert_eq!(frame2.a0, 0x2000_1000);
    assert_eq!(task.heap_pages_allocated, 2);
}

#[test]
fn scenario_exit() {
    let mut aspace = fresh_aspace();
    let mut task = Task::new();
    let mut frame = TrapFrame::zeroed();
    frame.a7 = 0;
    frame.a0 = 7;
    let empty = Vec::new();
    let (effect, _) = handle_syscall(&mut frame, &mut task, &mut aspace, &empty, 0x1000);
    match effect {
        SyscallEffect::Exit { code } => assert_eq!(code, 7),
        _ => panic!("expected shutdown"),
    }
}

#[test]
fn scenario_stack_bottom_arguments() {
    let mut aspace = fresh_aspace();
    let top = map_stack(&mut aspace).unwrap();
    assert_eq!(top, 0xf00_0000 + 128 * 4096);
    let (sp, words) = initial_stack_frame(top);
    assert_eq!(sp, top - 24);
    assert_eq!(words, vec![0, 0, 0]);
    // The stack pages are mapped user-read-write.
    let (level, _, flags) = aspace.walk_page(0xf00_0000).unwrap();
    assert_eq!(level, 0);
    assert_eq!(flags, (1 | 2 | 4 | 16) & 0x3f);
}

#[test]
fn scenario_illegal_syscall() {
    let mut aspace = fresh_aspace();
    let mut task = Task::new();
    let mut frame = TrapFrame::zeroed();
    frame.a7 = 99;
    let empty = Vec::new();
    let (effect, _) = handle_syscall(&mut frame, &mut task, &mut aspace, &empty, 0x1000);
    assert!(matches!(effect, SyscallEffect::Fatal));
    assert_eq!(Syscall::from_number(99), None);
}

#[test]
fn trap_dispatch_decision() {
    assert!(is_syscall_trap(true, 8));
    assert!(!is_syscall_trap(false, 8));
    assert!(!is_syscall_trap(true, 5));
}

#[test]
fn console_address_and_sanitising() {
    let mut log = UartLogger::new();
    assert_eq!(log.write(b'a'), (0x1000_0000, b'a'));
    log.paging_initialised();
    assert_eq!(log.write(b'a'), (0xffff_ffff_d000_0000, b'a'));
    let out = log.sanitise(&[b'h', 0x00, 0x1b, b'\n', 0x80]);
    assert_eq!(out, vec![b'h', b'?', 0x1b, b'\n', b'?']);
}

fn minimal_elf() -> Vec<u8> {
    // One PT_LOAD segment: 16 file bytes at virtual 0x10000, 0x2000 memory.
    let mut b = vec![0u8; 64 + 56 + 16];
    b[0] = 0x7f;
    b[1] = 0x45;
    b[2] = 0x4c;
    b[3] = 0x46;
    b[4] = 2; // 64-bit
    b[5] = 1; // little-endian
    b[24] = 0x34; // entry 0x10034
    b[25] = 0x00;
    b[26] = 0x01;
    b[32] = 64; // phoff
    b[54] = 56; // phentsize
    b[56] = 1; // phnum
    let p = 64;
    b[p] = 1; // PT_LOAD
    b[p + 4] = 5; // flags: R | X
    b[p + 8] = 120; // offset of the file image
    b[p + 16] = 0x00; // vaddr 0x10000
    b[p + 17] = 0x00;
    b[p + 18] = 0x01;
    b[p + 32] = 16; // filesz
    b[p + 40] = 0x00; // memsz 0x2000
    b[p + 41] = 0x20;
    b
}

#[test]
fn parse_elf_fields() {
    let b = minimal_elf();
    let (entry, phs) = parse_elf(&b).unwrap();
    assert_eq!(entry, 0x10034);
    assert_eq!(phs.len(), 1);
    assert_eq!(phs[0].p_type, 1);
    assert_eq!(phs[0].p_flags, 5);
    assert_eq!(phs[0].p_offset, 120);
    assert_eq!(phs[0].p_vaddr, 0x10000);
    assert_eq!(phs[0].p_filesz, 16);
    assert_eq!(phs[0].p_memsz, 0x2000);
    let mut bad = b.clone();
    bad[4] = 1;
    assert!(parse_elf(&bad).is_err());
}

#[test]
fn load_elf_maps_and_plans_copies() {
    let b = minimal_elf();
    let mut aspace = fresh_aspace();
    let (entry, ops) = mlibc_demo_os::userspace::load_elf(&mut aspace, &b).unwrap();
    assert_eq!(entry, 0x10034);
    assert_eq!(ops.len(), 1);
    assert_eq!(ops[0].dst, 0x10000);
    assert_eq!(ops[0].src_off, 120);
    assert_eq!(ops[0].len, 16);
    // Both pages are mapped user-visible with R|X after the remap pass.
    let (level, _, flags) = aspace.walk_page(0x10000).unwrap();
    assert_eq!(level, 0);
    assert_eq!(flags, (2 | 8 | 1 | 16) & 0x3f);
    let (_, _, flags1) = aspace.walk_page(0x11000).unwrap();
    assert_eq!(flags1, (2 | 8 | 1 | 16) & 0x3f);
    assert!(aspace.walk_page(0x12000).is_none());
}

#[test]
fn satp_value() {
    let aspace = fresh_aspace();
    let satp = aspace.satp();
    assert_eq!(satp >> 60, 8);
    assert_eq!(satp & 0xfff_ffff_ffff, aspace.root_addr() >> 12);
}

#[test]
fn boot_region_clamped_to_kernel_end() {
    // The device tree reports RAM at 0x8000_0000; the kernel image ends
    // above that, so the allocator starts at the image end.
    let a = allocator_init(0x8000_0000, 0x0800_0000, 0x8020_0000).unwrap();
    assert_eq!(a.base(), 0x8020_0000);
    assert_eq!(a.base() + a.len(), 0x8000_0000 + 0x0800_0000);
    assert_eq!(a.pos(), 0);
    // A kernel end below the region leaves the region untouched.
    let b = allocator_init(0x8000_0000, 0x1000, 0x4000_0000).unwrap();
    assert_eq!(b.base(), 0x8000_0000);
    assert_eq!(b.len(), 0x1000);
}

#[test]
fn boot_region_rejections() {
    // Clamped start not page-aligned.
    assert!(allocator_init(0x8000_0000, 0x1000, 0x8000_0100).is_none());
    // Kernel image ends past the whole region.
    assert!(allocator_init(0x8000_0000, 0x1000, 0x9000_0000).is_none());
    // Region end overflows the address space.
    assert!(allocator_init(0xffff_ffff_ffff_f000, 0x2000, 0).is_none());
}

#[test]
fn log_line_colours() {
    assert_eq!(severity_colour(LogSeverity::Trace), 36);
    assert_eq!(severity_colour(LogSeverity::Debug), 34);
    assert_eq!(severity_colour(LogSeverity::Info), 32);
    assert_eq!(severity_colour(LogSeverity::Warn), 33);
    assert_eq!(severity_colour(LogSeverity::Error), 31);
    assert!(severity_resets_colour(LogSeverity::Info));
    assert!(!severity_resets_colour(LogSeverity::Error));
}
