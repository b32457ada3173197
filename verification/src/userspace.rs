//! Userspace bring-up: parsing the embedded ELF image, building its
//! address space (map writable, copy, remap with the segment's final
//! protection), reserving the user stack, and laying out the initial
//! SysV-style argument frame. The SUM-guarded copies into user memory
//! are hardware accesses and happen outside the library; this module
//! decides exactly which bytes go to which user virtual address.

use vstd::prelude::*;

use crate::page_table::AddressSpace;
use crate::page_table::lemma_lookup_vpns;
use crate::page_table::same_vpns;
use crate::page_table::MapError;
use crate::page_table::EXECUTE;
use crate::page_table::READ;
use crate::page_table::USEFUL_FLAGS_MASK;
use crate::page_table::USER;
use crate::page_table::VALID;
use crate::page_table::WRITE;

verus! {

/// Lowest address of the user stack.
pub const STACK_START: u64 = 0xf00_0000;

/// Number of 4 KiB pages the user stack spans.
pub const STACK_PAGES: u64 = 128;

/// The one and only task: a reference to the root address space lives
/// beside it in the caller; the task itself records how many heap pages
/// mmap has handed out so far.
pub struct Task {
    pub heap_pages_allocated: u64,
}

impl Task {
    /// The task as it exists the moment the kernel enters user mode:
    /// nothing mmapped yet.
    pub fn new() -> (r: Task)
        ensures
            r.heap_pages_allocated == 0,
    {
        Task { heap_pages_allocated: 0 }
    }
}

/// A little-endian 16-bit field at `off`.
pub open spec fn le_u16(b: Seq<u8>, off: int) -> int {
    b[off] + 256 * b[off + 1]
}

/// A little-endian 32-bit field at `off`.
pub open spec fn le_u32(b: Seq<u8>, off: int) -> int {
    le_u16(b, off) + 0x1_0000 * le_u16(b, off + 2)
}

/// A little-endian 64-bit field at `off`.
pub open spec fn le_u64(b: Seq<u8>, off: int) -> int {
    le_u32(b, off) + 0x1_0000_0000 * le_u32(b, off + 4)
}

pub open spec fn elf_entry(b: Seq<u8>) -> int {
    le_u64(b, 24)
}

pub open spec fn elf_phoff(b: Seq<u8>) -> int {
    le_u64(b, 32)
}

pub open spec fn elf_phentsize(b: Seq<u8>) -> int {
    le_u16(b, 54)
}

pub open spec fn elf_phnum(b: Seq<u8>) -> int {
    le_u16(b, 56)
}

/// Offset of the `i`-th program header.
pub open spec fn phdr_off(b: Seq<u8>, i: int) -> int {
    elf_phoff(b) + i * elf_phentsize(b)
}

pub open spec fn ph_type(b: Seq<u8>, i: int) -> int {
    le_u32(b, phdr_off(b, i))
}

pub open spec fn ph_flags(b: Seq<u8>, i: int) -> int {
    le_u32(b, phdr_off(b, i) + 4)
}

pub open spec fn ph_offset(b: Seq<u8>, i: int) -> int {
    le_u64(b, phdr_off(b, i) + 8)
}

pub open spec fn ph_vaddr(b: Seq<u8>, i: int) -> int {
    le_u64(b, phdr_off(b, i) + 16)
}

pub open spec fn ph_filesz(b: Seq<u8>, i: int) -> int {
    le_u64(b, phdr_off(b, i) + 32)
}

pub open spec fn ph_memsz(b: Seq<u8>, i: int) -> int {
    le_u64(b, phdr_off(b, i) + 40)
}

/// A well-shaped image: the ELF magic, 64-bit class, little-endian
/// encoding, and a program-header table of the standard entry size that
/// lies entirely inside the image.
pub open spec fn elf_wf(b: Seq<u8>) -> bool {
    &&& b.len() >= 64
    &&& b[0] == 0x7f && b[1] == 0x45 && b[2] == 0x4c && b[3] == 0x46
    &&& b[4] == 2
    &&& b[5] == 1
    &&& elf_phentsize(b) >= 56
    &&& elf_phoff(b) + elf_phnum(b) * elf_phentsize(b) <= b.len()
}

/// One loadable segment, as the loader sees it.
#[derive(Clone, Copy, Debug, PartialEq, Eq, Structural)]
pub struct ProgramHeader {
    pub p_type: u64,
    pub p_flags: u64,
    pub p_offset: u64,
    pub p_vaddr: u64,
    pub p_filesz: u64,
    pub p_memsz: u64,
}

#[derive(Clone, Copy, Debug, PartialEq, Eq, Structural)]
pub enum ElfError {
    TooShort,
    BadMagic,
    BadClass,
    BadEncoding,
    BadPhTable,
}

fn read_u16(b: &[u8], off: usize) -> (r: u64)
    requires
        off + 2 <= b@.len(),
    ensures
        r == le_u16(b@, off as int),
{
    let n = b.len();
    (b[off] as u64) + 256 * (b[off + 1] as u64)
}

fn read_u32(b: &[u8], off: usize) -> (r: u64)
    requires
        off + 4 <= b@.len(),
    ensures
        r == le_u32(b@, off as int),
{
    let n = b.len();
    read_u16(b, off) + 0x1_0000 * read_u16(b, off + 2)
}

fn read_u64(b: &[u8], off: usize) -> (r: u64)
    requires
        off + 8 <= b@.len(),
    ensures
        r == le_u64(b@, off as int),
{
    let n = b.len();
    read_u32(b, off) + 0x1_0000_0000 * read_u32(b, off + 4)
}

/// Parses the ELF header and the program-header table. Succeeds exactly
/// on well-shaped images, and then returns the entry point and every
/// program header, each field read little-endian from its documented
/// offset.
pub fn parse_elf(b: &[u8]) -> (r: Result<(u64, Vec<ProgramHeader>), ElfError>)
    ensures
        r is Ok <==> elf_wf(b@),
        r matches Ok((entry, phs)) ==> {
            &&& entry == elf_entry(b@)
            &&& phs@.len() == elf_phnum(b@)
            &&& forall|i: int|
                0 <= i < phs@.len() ==> {
                    &&& (#[trigger] phs@[i]).p_type == ph_type(b@, i)
                    &&& phs@[i].p_flags == ph_flags(b@, i)
                    &&& phs@[i].p_offset == ph_offset(b@, i)
                    &&& phs@[i].p_vaddr == ph_vaddr(b@, i)
                    &&& phs@[i].p_filesz == ph_filesz(b@, i)
                    &&& phs@[i].p_memsz == ph_memsz(b@, i)
                }
        },
{
    if b.len() < 64 {
        return Err(ElfError::TooShort);
    }
    if !(b[0] == 0x7f && b[1] == 0x45 && b[2] == 0x4c && b[3] == 0x46) {
        return Err(ElfError::BadMagic);
    }
    if b[4] != 2 {
        return Err(ElfError::BadClass);
    }
    if b[5] != 1 {
        return Err(ElfError::BadEncoding);
    }
    let entry = read_u64(b, 24);
    let phoff = read_u64(b, 32);
    let phentsize = read_u16(b, 54);
    let phnum = read_u16(b, 56);
    let len = b.len() as u64;
    if phentsize < 56 {
        return Err(ElfError::BadPhTable);
    }
    proof {
        assert(phnum * phentsize <= 0xffff * 0xffff) by (nonlinear_arith)
            requires
                0 <= phnum <= 0xffff,
                0 <= phentsize <= 0xffff,
        ;
    }
    if phoff > len || phnum * phentsize > len - phoff {
        return Err(ElfError::BadPhTable);
    }
    let mut phs: Vec<ProgramHeader> = Vec::new();
    let mut i: u64 = 0;
    while i < phnum
        invariant
            i <= phnum,
            phs@.len() == i,
            elf_wf(b@),
            phoff == elf_phoff(b@),
            phentsize == elf_phentsize(b@),
            phnum == elf_phnum(b@),
            len == b@.len(),
            phentsize >= 56,
            phoff + phnum * phentsize <= len,
            phnum <= 0xffff && phentsize <= 0xffff,
            b@.len() <= usize::MAX,
            forall|j: int|
                0 <= j < i ==> {
                    &&& (#[trigger] phs@[j]).p_type == ph_type(b@, j)
                    &&& phs@[j].p_flags == ph_flags(b@, j)
                    &&& phs@[j].p_offset == ph_offset(b@, j)
                    &&& phs@[j].p_vaddr == ph_vaddr(b@, j)
                    &&& phs@[j].p_filesz == ph_filesz(b@, j)
                    &&& phs@[j].p_memsz == ph_memsz(b@, j)
                },
        decreases phnum - i,
    {
        proof {
            assert(i * phentsize + phentsize <= phnum * phentsize) by (nonlinear_arith)
                requires
                    i + 1 <= phnum,
                    phentsize >= 0,
            ;
            assert(phoff + i * phentsize + 56 <= b@.len());
        }
        let off = (phoff + i * phentsize) as usize;
        proof {
            assert(off + 56 <= b@.len());
        }
        let ph = ProgramHeader {
            p_type: read_u32(b, off),
            p_flags: read_u32(b, off + 4),
            p_offset: read_u64(b, off + 8),
            p_vaddr: read_u64(b, off + 16),
            p_filesz: read_u64(b, off + 32),
            p_memsz: read_u64(b, off + 40),
        };
        phs.push(ph);
        i = i + 1;
    }
    Ok((entry, phs))
}

/// One copy the caller must perform into user memory: `len` bytes of
/// the image, starting at `src_off`, to user virtual address `dst`.
#[derive(Clone, Copy, Debug, PartialEq, Eq, Structural)]
pub struct CopyOp {
    pub dst: u64,
    pub src_off: u64,
    pub len: u64,
}

#[derive(Clone, Copy, Debug, PartialEq, Eq, Structural)]
pub enum LoadError {
    BadElf,
    BadSegment,
    Mapping(MapError),
}

/// The copies the loader requests for the loadable segments among the
/// first `n` program headers, in table order.
pub open spec fn load_copies(b: Seq<u8>, n: int) -> Seq<CopyOp>
    decreases n,
{
    if n <= 0 {
        Seq::empty()
    } else {
        let rest = load_copies(b, n - 1);
        if ph_type(b, n - 1) == 1 {
            rest + seq![
                CopyOp {
                    dst: ph_vaddr(b, n - 1) as u64,
                    src_off: ph_offset(b, n - 1) as u64,
                    len: ph_filesz(b, n - 1) as u64,
                },
            ]
        } else {
            rest
        }
    }
}

/// The page-table protection bits a segment's ELF permission flags ask
/// for: R for PF_R (bit 2), W for PF_W (bit 1), X for PF_X (bit 0).
pub open spec fn seg_prot(pf: u64) -> u64 {
    ((if pf & 4 != 0 {
        READ
    } else {
        0u64
    }) + (if pf & 2 != 0 {
        WRITE
    } else {
        0u64
    }) + (if pf & 1 != 0 {
        EXECUTE
    } else {
        0u64
    })) as u64
}

/// How many 4 KiB pages the loader walks for a segment of `memsz`
/// bytes.
pub open spec fn seg_pages(memsz: int) -> int {
    (memsz + 4095) / 4096
}

/// A loadable segment the loader accepts: the file image fits inside
/// the file and the memory image, the page range is addressable, and
/// the segment asks for at least one permission bit.
pub open spec fn seg_ok(b: Seq<u8>, i: int) -> bool {
    &&& ph_filesz(b, i) <= ph_memsz(b, i)
    &&& ph_offset(b, i) + ph_filesz(b, i) <= b.len()
    &&& seg_pages(ph_memsz(b, i)) <= (u64::MAX - ph_vaddr(b, i)) / 4096
    &&& seg_prot(ph_flags(b, i) as u64) != 0
}

/// Loads the image into `aspace`: every page of each loadable segment
/// is first mapped writable for the kernel (fresh zeroed frames, so the
/// tail beyond the file image is the segment's zero-filled memory),
/// then remapped in place as a user page with the protection the
/// segment asks for — `map_page` refuses re-mapping, so the protection
/// change goes through `remap_range`, which keeps the loaded frames.
/// Returns the entry point and the copies the caller must perform (with
/// SUM enabled) between the two passes. On success every page of every
/// loadable segment translates to a 4 KiB user mapping with the
/// segment's protection; each failure carries its reason (a malformed
/// image, a segment whose numbers are inconsistent, a blocked or
/// exhausted mapping), so success is owed for a well-shaped image with
/// consistent segments in a fresh address space with room.
#[verifier::rlimit(100)]
pub fn load_elf(aspace: &mut AddressSpace, b: &[u8]) -> (r: Result<(u64, Vec<CopyOp>), LoadError>)
    requires
        old(aspace).wf(),
    ensures
        final(aspace).wf(),
        final(aspace).bump.base == old(aspace).bump.base,
        final(aspace).bump.len == old(aspace).bump.len,
        (r matches Err(LoadError::BadElf)) <==> !elf_wf(b@),
        r matches Err(LoadError::BadSegment) ==> exists|i: int|
            0 <= i < elf_phnum(b@) && #[trigger] ph_type(b@, i) == 1 && !seg_ok(b@, i),
        r matches Err(LoadError::Mapping(e)) ==> (match e {
            MapError::AlreadyMapped => exists|i: int, p: int|
                0 <= i < elf_phnum(b@) && ph_type(b@, i) == 1 && 0 <= p < seg_pages(
                    ph_memsz(b@, i),
                ) && #[trigger] final(aspace).translate((ph_vaddr(b@, i) + 4096 * p) as u64)
                    is Some,
            MapError::PathLeaf => exists|i: int, p: int|
                0 <= i < elf_phnum(b@) && ph_type(b@, i) == 1 && 0 <= p < seg_pages(
                    ph_memsz(b@, i),
                ) && !(#[trigger] final(aspace).path_ok(0, (ph_vaddr(b@, i) + 4096 * p) as u64, 2)),
            MapError::OutOfMemory => final(aspace).bump.pos + 4096 * 3 > final(aspace).bump.len,
            MapError::NotMapped => false,
        }),
        r matches Ok((entry, ops)) ==> {
            &&& elf_wf(b@)
            &&& entry == elf_entry(b@)
            &&& ops@ == load_copies(b@, elf_phnum(b@))
            &&& forall|i: int|
                0 <= i < elf_phnum(b@) && #[trigger] ph_type(b@, i) == 1 ==> seg_ok(b@, i) && (
                forall|p: int|
                    0 <= p < seg_pages(ph_memsz(b@, i)) ==> (#[trigger] final(aspace).translate(
                        (ph_vaddr(b@, i) + 4096 * p) as u64,
                    ) matches Some((l, _, fl)) && l == 0 && fl == ((seg_prot(
                        ph_flags(b@, i) as u64,
                    ) | VALID | USER) | VALID) & USEFUL_FLAGS_MASK))
        },
{
    let ghost s00 = *old(aspace);
    let (entry, phs) = match parse_elf(b) {
        Ok(x) => x,
        Err(_) => {
            return Err(LoadError::BadElf);
        },
    };
    let mut ops: Vec<CopyOp> = Vec::new();
    let mut i: usize = 0;
    while i < phs.len()
        invariant
            s00 == *old(aspace),
            aspace.wf(),
            aspace.bump.base == s00.bump.base,
            aspace.bump.len == s00.bump.len,
            i <= phs@.len(),
            elf_wf(b@),
            phs@.len() == elf_phnum(b@),
            forall|j: int|
                0 <= j < phs@.len() ==> {
                    &&& (#[trigger] phs@[j]).p_type == ph_type(b@, j)
                    &&& phs@[j].p_flags == ph_flags(b@, j)
                    &&& phs@[j].p_offset == ph_offset(b@, j)
                    &&& phs@[j].p_vaddr == ph_vaddr(b@, j)
                    &&& phs@[j].p_filesz == ph_filesz(b@, j)
                    &&& phs@[j].p_memsz == ph_memsz(b@, j)
                },
            ops@ == load_copies(b@, i as int),
            forall|k: int|
                0 <= k < i && #[trigger] ph_type(b@, k) == 1 ==> seg_ok(b@, k) && (forall|p: int|
                    0 <= p < seg_pages(ph_memsz(b@, k)) ==> (#[trigger] aspace.translate(
                        (ph_vaddr(b@, k) + 4096 * p) as u64,
                    ) matches Some((l, _, fl)) && l == 0 && fl == ((seg_prot(
                        ph_flags(b@, k) as u64,
                    ) | VALID | USER) | VALID) & USEFUL_FLAGS_MASK)),
        decreases phs@.len() - i,
    {
        let ph = phs[i];
        if ph.p_type == 1 {
            let blen = b.len() as u64;
            if ph.p_filesz > ph.p_memsz || ph.p_offset > blen || ph.p_filesz > blen - ph.p_offset {
                proof {
                    assert(!seg_ok(b@, i as int));
                }
                return Err(LoadError::BadSegment);
            }
            let num_pages = ph.p_memsz / 4096 + if ph.p_memsz % 4096 != 0 {
                1
            } else {
                0
            };
            proof {
                assert(num_pages == seg_pages(ph_memsz(b@, i as int))) by (nonlinear_arith)
                    requires
                        num_pages == ph.p_memsz / 4096 + if ph.p_memsz % 4096 != 0 {
                            1u64
                        } else {
                            0u64
                        },
                        ph.p_memsz == ph_memsz(b@, i as int),
                ;
            }
            if num_pages > (u64::MAX - ph.p_vaddr) / 4096 {
                proof {
                    assert(!seg_ok(b@, i as int));
                }
                return Err(LoadError::BadSegment);
            }
            let mut prot: u64 = 0;
            if ph.p_flags & 4 != 0 {
                prot = prot + READ;
            }
            if ph.p_flags & 2 != 0 {
                prot = prot + WRITE;
            }
            if ph.p_flags & 1 != 0 {
                prot = prot + EXECUTE;
            }
            proof {
                assert(prot == seg_prot(ph_flags(b@, i as int) as u64));
                assert((VALID | READ | WRITE) & (READ | WRITE | EXECUTE) != 0) by (bit_vector);
                let np = num_pages;
                let va = ph.p_vaddr;
                assert(va + 4096 * np <= u64::MAX) by (nonlinear_arith)
                    requires
                        np <= (u64::MAX - va) / 4096,
                        va <= u64::MAX,
                ;
            }
            if prot == 0 {
                proof {
                    assert(!seg_ok(b@, i as int));
                }
                return Err(LoadError::BadSegment);
            }
            let ghost s_seg = *aspace;
            match aspace.map_range(ph.p_vaddr, num_pages, VALID | READ | WRITE) {
                Ok(_) => {},
                Err(e) => {
                    proof {
                        if e == MapError::AlreadyMapped {
                            let q = choose|q: int|
                                0 <= q < num_pages && #[trigger] aspace.translate(
                                    (ph.p_vaddr + 4096 * q) as u64,
                                ) is Some;
                            assert(aspace.translate(
                                (ph_vaddr(b@, i as int) + 4096 * q) as u64,
                            ) is Some);
                        }
                        if e == MapError::PathLeaf {
                            let q = choose|q: int|
                                0 <= q < num_pages && !(#[trigger] aspace.path_ok(
                                    0,
                                    (ph.p_vaddr + 4096 * q) as u64,
                                    2,
                                ));
                            assert(!aspace.path_ok(
                                0,
                                (ph_vaddr(b@, i as int) + 4096 * q) as u64,
                                2,
                            ));
                        }
                    }
                    return Err(LoadError::Mapping(e));
                },
            }
            let ghost s_mid = *aspace;
            ops.push(CopyOp { dst: ph.p_vaddr, src_off: ph.p_offset, len: ph.p_filesz });
            // Second pass: the caller copies the file image in between;
            // here the pages get their final user-visible protection.
            proof {
                assert((prot | VALID | USER) & (READ | WRITE | EXECUTE) != 0) by (bit_vector)
                    requires
                        prot != 0,
                        prot <= 14,
                        prot % 2 == 0,
                ;
            }
            match aspace.remap_range(ph.p_vaddr, num_pages, prot | VALID | USER) {
                Ok(_) => {},
                Err(_) => {
                    proof {
                        assert(false);
                    }
                    return Err(LoadError::Mapping(MapError::NotMapped));
                },
            }
            proof {
                // Pages of segments already loaded share no slot with
                // this segment's pages (those were all unmapped when
                // this segment's first pass began), so both passes left
                // them exactly as they were.
                assert forall|k: int|
                    0 <= k < i && #[trigger] ph_type(b@, k) == 1 implies (forall|p: int|
                        0 <= p < seg_pages(ph_memsz(b@, k)) ==> (#[trigger] aspace.translate(
                            (ph_vaddr(b@, k) + 4096 * p) as u64,
                        ) matches Some((l, _, fl)) && l == 0 && fl == ((seg_prot(
                            ph_flags(b@, k) as u64,
                        ) | VALID | USER) | VALID) & USEFUL_FLAGS_MASK)) by {
                    assert forall|p: int| 0 <= p < seg_pages(ph_memsz(b@, k)) implies (
                    #[trigger] aspace.translate((ph_vaddr(b@, k) + 4096 * p) as u64) matches Some(
                        (l, _, fl),
                    ) && l == 0 && fl == ((seg_prot(ph_flags(b@, k) as u64) | VALID | USER)
                        | VALID) & USEFUL_FLAGS_MASK) by {
                        let va = (ph_vaddr(b@, k) + 4096 * p) as u64;
                        assert(s_seg.translate(va) matches Some((l, _, _)) && l == 0);
                        assert forall|q: int| 0 <= q < num_pages implies !(#[trigger] same_vpns(
                            va,
                            (ph.p_vaddr + 4096 * q) as u64,
                        )) by {
                            let pq = (ph.p_vaddr + 4096 * q) as u64;
                            if same_vpns(va, pq) {
                                lemma_lookup_vpns(s_seg, 0, va, pq, 2);
                                assert(s_seg.translate(pq) is None);
                                assert(false);
                            }
                        }
                        assert(s_mid.translate(va) == s_seg.translate(va));
                        assert(aspace.translate(va) == s_mid.translate(va));
                    }
                }
                // This segment's pages now carry their final flags.
                assert forall|p: int| 0 <= p < seg_pages(ph_memsz(b@, i as int)) implies (
                #[trigger] aspace.translate(
                    (ph_vaddr(b@, i as int) + 4096 * p) as u64,
                ) matches Some((l, _, fl)) && l == 0 && fl == ((seg_prot(
                    ph_flags(b@, i as int) as u64,
                ) | VALID | USER) | VALID) & USEFUL_FLAGS_MASK) by {
                    assert(aspace.translate((ph.p_vaddr + 4096 * p) as u64) matches Some(
                        (l, _, fl),
                    ) && l == 0 && fl == ((prot | VALID | USER) | VALID) & USEFUL_FLAGS_MASK);
                }
                assert(seg_ok(b@, i as int));
            }
        }
        i = i + 1;
        proof {
            assert(ops@ == load_copies(b@, i as int));
        }
    }
    Ok((entry, ops))
}

/// Maps the user stack: `STACK_PAGES` pages from `STACK_START` upward,
/// each readable, writable and user-accessible, and returns the stack
/// top the user's stack pointer starts from. Mappings outside the stack
/// range are untouched, and failure carries its reason: a page of the
/// range already mapped, a super-page in the way, or an exhausted
/// allocator — so success is owed whenever the range is free and the
/// allocator has room.
pub fn map_stack(aspace: &mut AddressSpace) -> (r: Result<u64, MapError>)
    requires
        old(aspace).wf(),
    ensures
        final(aspace).wf(),
        final(aspace).bump.base == old(aspace).bump.base,
        final(aspace).bump.len == old(aspace).bump.len,
        forall|va: u64|
            (forall|i: int|
                0 <= i < STACK_PAGES ==> !(#[trigger] same_vpns(
                    va,
                    (STACK_START + 4096 * i) as u64,
                ))) ==> final(aspace).translate(va) == old(aspace).translate(va),
        r matches Ok(top) ==> {
            &&& top == STACK_START + STACK_PAGES * 4096
            &&& forall|i: int|
                0 <= i < STACK_PAGES ==> (#[trigger] final(aspace).translate(
                    (STACK_START + 4096 * i) as u64,
                ) matches Some((l, _, fl)) && l == 0 && fl == ((VALID | READ | WRITE | USER)
                    | VALID) & USEFUL_FLAGS_MASK)
        },
        r matches Err(e) ==> (match e {
            MapError::AlreadyMapped => exists|i: int|
                0 <= i < STACK_PAGES && #[trigger] final(aspace).translate(
                    (STACK_START + 4096 * i) as u64,
                ) is Some,
            MapError::PathLeaf => exists|i: int|
                0 <= i < STACK_PAGES && !(#[trigger] final(aspace).path_ok(
                    0,
                    (STACK_START + 4096 * i) as u64,
                    2,
                )),
            MapError::OutOfMemory => final(aspace).bump.pos + 4096 * 3 > final(aspace).bump.len,
            MapError::NotMapped => false,
        }),
{
    proof {
        assert((VALID | READ | WRITE | USER) & (READ | WRITE | EXECUTE) != 0) by (bit_vector);
    }
    match aspace.map_range(STACK_START, STACK_PAGES, VALID | READ | WRITE | USER) {
        Ok(_) => Ok(STACK_START + STACK_PAGES * 4096),
        Err(e) => Err(e),
    }
}

/// The initial user frame: an environment terminator, an argument
/// terminator and an argument count of zero, pushed downward from the
/// stack top as three 8-byte quadwords. Returns the user's initial
/// stack pointer and the quadwords to store there, lowest address
/// first: the word at the stack pointer is `argc`.
pub fn initial_stack_frame(stack_top: u64) -> (r: (u64, Vec<u64>))
    requires
        stack_top >= 24,
    ensures
        r.0 == stack_top - 24,
        r.1@ =~= seq![0u64, 0u64, 0u64],
{
    let mut words: Vec<u64> = Vec::new();
    words.push(0);
    words.push(0);
    words.push(0);
    (stack_top - 24, words)
}

} // verus!
