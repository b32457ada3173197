//! The physical-frame bump allocator. It owns a single contiguous byte
//! region of physical memory and hands out monotonically increasing,
//! aligned addresses; deallocation is a no-op and the cursor never moves
//! backwards. The region is learned at boot from the device tree and
//! clamped so it starts at or above the end of the kernel image.

use vstd::prelude::*;

verus! {

/// Largest alignment the allocator serves; larger requests fail.
pub const MAX_SUPPORTED_ALIGN: u64 = 4096;

/// Byte lengths and sizes handed to the allocator come from `Layout`s,
/// whose documented invariant keeps them at or below `isize::MAX`.
pub const MAX_REGION_LEN: u64 = 0x7fff_ffff_ffff_ffff;

/// True when `align` is a power of two, the shape `Layout` guarantees
/// for every alignment it carries.
pub open spec fn is_pow2(align: u64) -> bool {
    align > 0 && align & ((align - 1) as u64) == 0
}

/// The first multiple of `align` at or above `pos` (exact whenever
/// `pos + align` does not exceed `u64::MAX`, which every caller here
/// guarantees).
pub open spec fn align_up(pos: u64, align: u64) -> u64 {
    ((pos + align - 1) as u64) & !((align - 1) as u64)
}

/// A bump allocator over the physical region `[base, base + len)`.
/// `pos` is the cursor: everything in `[base, base + pos)` has been
/// handed out, everything at or above `base + pos` is still free.
pub struct BumpAllocator {
    pub base: u64,
    pub len: u64,
    pub pos: u64,
}

/// The state and result of a successful allocation, as a function of the
/// allocator's state alone: `alloc` returns exactly this.
pub open spec fn alloc_spec(s: BumpAllocator, size: u64, align: u64) -> Option<(BumpAllocator, u64)> {
    let start = align_up(s.pos, align);
    if align <= MAX_SUPPORTED_ALIGN && start + size <= s.len {
        Some((BumpAllocator { base: s.base, len: s.len, pos: (start + size) as u64 }, (s.base + start) as u64))
    } else {
        None
    }
}

impl BumpAllocator {
    /// The allocator's invariant: the region base is page aligned (the
    /// boot path asserts this), the cursor stays inside the region, the
    /// region length is a valid slice length, and the region's end fits
    /// in an address.
    pub open spec fn wf(self) -> bool {
        &&& self.base % 4096 == 0
        &&& self.pos <= self.len
        &&& self.len <= MAX_REGION_LEN
        &&& self.base + self.len <= u64::MAX
    }

    /// Builds an allocator over `[base, base + len)` with the cursor at
    /// the start of the region.
    pub fn new(base: u64, len: u64) -> (r: BumpAllocator)
        requires
            base % 4096 == 0,
            len <= MAX_REGION_LEN,
            base + len <= u64::MAX,
        ensures
            r.wf(),
            r.base == base,
            r.len == len,
            r.pos == 0,
    {
        BumpAllocator { base, len, pos: 0 }
    }

    pub fn base(&self) -> (r: u64)
        ensures
            r == self.base,
    {
        self.base
    }

    pub fn len(&self) -> (r: u64)
        ensures
            r == self.len,
    {
        self.len
    }

    pub fn pos(&self) -> (r: u64)
        ensures
            r == self.pos,
    {
        self.pos
    }

    /// Allocates `size` bytes aligned to `align`, bumping the cursor.
    /// Fails (returning `None`, the counterpart of the null pointer)
    /// when the alignment is beyond the supported maximum or the region
    /// has no room left; on failure the allocator is unchanged.
    pub fn allocate(&mut self, size: u64, align: u64) -> (r: Option<u64>)
        requires
            old(self).wf(),
            is_pow2(align),
            size <= MAX_REGION_LEN,
        ensures
            final(self).wf(),
            final(self).base == old(self).base,
            final(self).len == old(self).len,
            old(self).pos <= final(self).pos,
            r is Some <==> alloc_spec(*old(self), size, align) is Some,
            r is None ==> *final(self) == *old(self),
            r matches Some(p) ==> {
                &&& alloc_spec(*old(self), size, align) == Some((*final(self), p))
                &&& old(self).base + old(self).pos <= p
                &&& p + size == final(self).base + final(self).pos
                &&& p % align == 0
                &&& p % 4096 == align_up(old(self).pos, align) % 4096
            },
    {
        if align > MAX_SUPPORTED_ALIGN {
            return None;
        }
        proof {
            lemma_align_up(self.pos, align);
        }
        let align_mask: u64 = !(align - 1);
        let alloc_start: u64 = (self.pos + align - 1) & align_mask;
        if alloc_start > self.len {
            return None;
        }
        let alloc_end: u64 = alloc_start + size;
        if alloc_end > self.len {
            return None;
        }
        self.pos = alloc_end;
        let out: u64 = self.base + alloc_start;
        proof {
            lemma_align_mod(old(self).base, alloc_start, align);
        }
        Some(out)
    }
}

/// A supported power-of-two alignment is one of thirteen values; naming
/// them lets the solver divide by constants below.
proof fn lemma_pow2_cases(align: u64)
    by (bit_vector)
    requires
        align > 0,
        align & ((align - 1) as u64) == 0,
        align <= 4096,
    ensures
        align == 1 || align == 2 || align == 4 || align == 8 || align == 16 || align == 32
            || align == 64 || align == 128 || align == 256 || align == 512 || align == 1024
            || align == 2048 || align == 4096,
{
}

/// Bounds and alignment of the rounded-up cursor: rounding up to a
/// supported power-of-two alignment never moves the cursor backwards,
/// moves it by less than one alignment unit, and lands on a multiple of
/// the alignment.
#[verifier::rlimit(100)]
proof fn lemma_align_up(pos: u64, align: u64)
    requires
        align > 0,
        align & ((align - 1) as u64) == 0,
        align <= 4096,
        pos <= 0x7fff_ffff_ffff_ffff,
    ensures
        pos <= align_up(pos, align),
        align_up(pos, align) < pos + align,
        align_up(pos, align) % align == 0,
{
    lemma_pow2_cases(align);
    assert(pos <= align_up(pos, align) && align_up(pos, align) < pos + align
        && align_up(pos, align) % align == 0) by (bit_vector)
        requires
            pos <= 0x7fff_ffff_ffff_ffff,
            align == 1 || align == 2 || align == 4 || align == 8 || align == 16 || align == 32
                || align == 64 || align == 128 || align == 256 || align == 512 || align == 1024
                || align == 2048 || align == 4096,
    ;
}

/// A page-aligned base added to an `align`-aligned offset stays
/// `align`-aligned, for every supported power-of-two alignment.
#[verifier::rlimit(100)]
proof fn lemma_align_mod(base: u64, start: u64, align: u64)
    requires
        align > 0,
        align & ((align - 1) as u64) == 0,
        align <= 4096,
        base % 4096 == 0,
        start % align == 0,
        base + start <= u64::MAX,
    ensures
        ((base + start) as u64) % align == 0,
        ((base + start) as u64) % 4096 == start % 4096,
{
    lemma_pow2_cases(align);
    assert(((base + start) as u64) % align == 0 && ((base + start) as u64) % 4096 == start % 4096)
        by (bit_vector)
        requires
            base % 4096 == 0,
            start % align == 0,
            base + start <= u64::MAX,
            align == 1 || align == 2 || align == 4 || align == 8 || align == 16 || align == 32
                || align == 64 || align == 128 || align == 256 || align == 512 || align == 1024
                || align == 2048 || align == 4096,
    ;
}

/// Allocator monotonicity: any two consecutive successful allocations
/// return addresses in increasing order, with disjoint byte ranges
/// (`p1 + size1 <= p2`), each aligned as requested and lying inside the
/// portion of the region the cursor has covered.
pub proof fn lemma_alloc_monotone(s0: BumpAllocator, size1: u64, align1: u64, size2: u64, align2: u64)
    requires
        s0.wf(),
        is_pow2(align1),
        is_pow2(align2),
        size1 <= MAX_REGION_LEN,
        size2 <= MAX_REGION_LEN,
        alloc_spec(s0, size1, align1) is Some,
    ensures
        ({
            let (s1, p1) = alloc_spec(s0, size1, align1)->Some_0;
            &&& s1.wf()
            &&& s0.base + s0.pos <= p1
            &&& p1 % align1 == 0
            &&& p1 + size1 <= s0.base + s1.pos
            &&& alloc_spec(s1, size2, align2) matches Some((s2, p2)) ==> {
                &&& p1 + size1 <= p2
                &&& p2 % align2 == 0
                &&& p2 + size2 <= s0.base + s2.pos
                &&& s1.pos <= s2.pos
            }
        }),
{
    lemma_align_up(s0.pos, align1);
    lemma_align_mod(s0.base, align_up(s0.pos, align1), align1);
    let s1 = alloc_spec(s0, size1, align1)->Some_0.0;
    if alloc_spec(s1, size2, align2) is Some {
        lemma_align_up(s1.pos, align2);
        lemma_align_mod(s1.base, align_up(s1.pos, align2), align2);
    }
}


/// Builds the boot allocator from the first memory region the device
/// tree reports, handed in as plain values (reading the blob behind the
/// firmware's raw pointer is the boot path's job, outside the library):
/// the region is clamped so it starts at or above the end of the kernel
/// image. Succeeds exactly when the region has an end address, the
/// clamped base is page-aligned and not past that end, and the
/// remaining length is a valid slice length; a missing memory node is
/// the caller's `None` before ever calling in, and every other
/// deviation is fatal for the boot path to act on.
pub fn init(mem_start: u64, mem_size: u64, kernel_end: u64) -> (r: Option<BumpAllocator>)
    ensures
        r is Some <==> ({
            let base = if mem_start >= kernel_end {
                mem_start
            } else {
                kernel_end
            };
            &&& mem_start + mem_size <= u64::MAX
            &&& base % 4096 == 0
            &&& base <= mem_start + mem_size
            &&& mem_start + mem_size - base <= MAX_REGION_LEN
        }),
        r matches Some(a) ==> {
            &&& a.wf()
            &&& a.pos == 0
            &&& a.base == if mem_start >= kernel_end {
                mem_start
            } else {
                kernel_end
            }
            &&& a.base + a.len == mem_start + mem_size
        },
{
    if mem_size > u64::MAX - mem_start {
        return None;
    }
    let end = mem_start + mem_size;
    let base = if mem_start >= kernel_end {
        mem_start
    } else {
        kernel_end
    };
    if base % 4096 != 0 || base > end {
        return None;
    }
    let len = end - base;
    if len > MAX_REGION_LEN {
        return None;
    }
    Some(BumpAllocator::new(base, len))
}

} // verus!
