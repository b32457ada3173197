//! The Sv39 three-level page-table engine. A `PageTable` is one 512-entry
//! table; an `AddressSpace` is the arena of tables rooted at table 0,
//! together with the bump allocator that backs both inner tables and leaf
//! frames. Entries pack a physical page number into bits 10..54 (the
//! physical address shifted right by 2 and masked) and the V/R/W/X/U/G
//! flags into the low six bits. The model records every table's physical
//! base address, so an entry's target can be followed back to the arena;
//! the TLB invalidation that must follow each mutation on real hardware
//! is the caller's duty, outside this model.

use vstd::prelude::*;

use crate::allocator::align_up;
use crate::allocator::alloc_spec;
use crate::allocator::is_pow2;
use crate::allocator::BumpAllocator;

verus! {

pub const VALID: u64 = 1;

pub const READ: u64 = 2;

pub const WRITE: u64 = 4;

pub const EXECUTE: u64 = 8;

pub const USER: u64 = 16;

pub const GLOBAL: u64 = 32;

/// The physical page number field of an entry: bits 10..54.
pub const PTE_PPN_MASK: u64 = 0xff_ffff_ffff_fc00;

/// The flag bits an entry keeps on construction: V, R, W, X, U, G.
pub const USEFUL_FLAGS_MASK: u64 = 0x3f;

/// Sv39 physical addresses are at most 56 bits wide; every address the
/// engine packs into an entry must round-trip through the PPN field.
pub const MAX_PHYS_ADDR: u64 = 0x100_0000_0000_0000;

/// The largest value the PPN field of an entry can point at: bits 10..55
/// of an entry, shifted back by 2, span 46 + 12 = 58 bits.
pub const ENTRY_TARGET_LIMIT: u64 = 0x400_0000_0000_0000;

/// The virtual page number of `va` at a table level: bits 12..21, 21..30
/// or 30..39 for levels 0, 1 and 2.
pub open spec fn vpn(va: u64, level: nat) -> u64 {
    if level == 0 {
        (va >> 12) & 0x1ff
    } else if level == 1 {
        (va >> 21) & 0x1ff
    } else {
        (va >> 30) & 0x1ff
    }
}

/// `va` rounded down to its 4 KiB page.
pub open spec fn page_base(va: u64) -> u64 {
    va & !0xfff
}

/// An entry with the V bit set.
pub open spec fn entry_valid(e: u64) -> bool {
    e & VALID != 0
}

/// A valid entry with at least one of R/W/X set is a leaf; a valid entry
/// with none of them set points at the next-level table.
pub open spec fn entry_leaf(e: u64) -> bool {
    e & (READ | WRITE | EXECUTE) != 0
}

/// The physical address an entry points at: the PPN field shifted back.
pub open spec fn entry_target(e: u64) -> u64 {
    (e & PTE_PPN_MASK) << 2
}

/// The low ten flag bits of an entry.
pub open spec fn entry_flags(e: u64) -> u64 {
    e & 0x3ff
}

/// Two virtual addresses that agree on all three virtual page numbers
/// land in the same leaf slot of the tree; the engine cannot tell them
/// apart (Sv39 ignores bits above 39 when walking).
pub open spec fn same_vpns(a: u64, b: u64) -> bool {
    vpn(a, 0) == vpn(b, 0) && vpn(a, 1) == vpn(b, 1) && vpn(a, 2) == vpn(b, 2)
}

/// A single 512-entry page table, 4 KiB worth of 64-bit entries.
pub struct PageTable {
    pub entries: Vec<u64>,
}

/// The value `map_higher_half` writes at root index `i`: a gigapage leaf
/// mapping the `i`-th GiB of physical memory, except index 511, which
/// maps the zeroth GiB again as the kernel's MMIO window.
pub open spec fn higher_half_entry(i: int) -> u64 {
    if i == 511 {
        READ | WRITE | EXECUTE | GLOBAL | VALID
    } else {
        (((i as u64) << 28) | READ | WRITE | EXECUTE | GLOBAL | VALID) as u64
    }
}

impl PageTable {
    pub open spec fn wf(self) -> bool {
        self.entries@.len() == 512
    }

    /// A fresh, zero-filled table: every entry invalid.
    pub fn new() -> (r: PageTable)
        ensures
            r.wf(),
            forall|k: int| 0 <= k < 512 ==> r.entries@[k] == 0,
    {
        let mut entries: Vec<u64> = Vec::new();
        let mut i: usize = 0;
        while i < 512
            invariant
                i <= 512,
                entries@.len() == i,
                forall|k: int| 0 <= k < i ==> entries@[k] == 0,
            decreases 512 - i,
        {
            entries.push(0);
            i = i + 1;
        }
        PageTable { entries }
    }

    /// Populates a root table with the kernel's higher-half map: index 0
    /// is left untouched (the userspace gigabyte), indices 1..510 map the
    /// `i`-th GiB of physical memory one-to-one, and index 511 maps the
    /// zeroth GiB so MMIO stays reachable near the top of the address
    /// space. All written entries are global kernel gigapage leaves,
    /// never user-accessible.
    pub fn map_higher_half(&mut self)
        requires
            old(self).wf(),
        ensures
            final(self).wf(),
            final(self).entries@[0] == old(self).entries@[0],
            forall|k: int| 1 <= k < 512 ==> final(self).entries@[k] == higher_half_entry(k),
    {
        let mut i: usize = 1;
        while i < 512
            invariant
                1 <= i <= 512,
                self.entries@.len() == 512,
                self.entries@[0] == old(self).entries@[0],
                forall|k: int| 1 <= k < i ==> self.entries@[k] == higher_half_entry(k),
                forall|k: int| i <= k < 512 ==> self.entries@[k] == old(self).entries@[k],
            decreases 512 - i,
        {
            if i == 511 {
                self.entries[i] = READ | WRITE | EXECUTE | GLOBAL | VALID;
            } else {
                self.entries[i] = ((i as u64) << 28) | READ | WRITE | EXECUTE | GLOBAL | VALID;
            }
            i = i + 1;
        }
    }
}

/// Higher-half shape, entry by entry: every populated root entry carries
/// exactly the R/W/X/G/V flags and no U bit, entries 1..510 hold the
/// physical page number `i << 18` (the `i`-th gigabyte), and entry 511
/// holds physical page number 0.
pub proof fn lemma_higher_half_shape(i: u64)
    requires
        1 <= i < 512,
    ensures
        entry_valid(higher_half_entry(i as int)),
        entry_leaf(higher_half_entry(i as int)),
        entry_flags(higher_half_entry(i as int)) == (READ | WRITE | EXECUTE | GLOBAL | VALID),
        higher_half_entry(i as int) & USER == 0,
        (higher_half_entry(i as int) & PTE_PPN_MASK) >> 10 == if i == 511 {
            0u64
        } else {
            i << 18
        },
        entry_target(higher_half_entry(i as int)) == if i == 511 {
            0u64
        } else {
            i << 30
        },
{
    if i == 511 {
        assert({
            let e = (READ | WRITE | EXECUTE | GLOBAL | VALID) as u64;
            &&& e & VALID != 0
            &&& e & (READ | WRITE | EXECUTE) != 0
            &&& e & 0x3ffu64 == e
            &&& e & USER == 0
            &&& (e & PTE_PPN_MASK) >> 10 == 0
            &&& (e & PTE_PPN_MASK) << 2 == 0
        }) by (bit_vector);
    } else {
        assert({
            let e = ((i << 28) | READ | WRITE | EXECUTE | GLOBAL | VALID) as u64;
            &&& e & VALID != 0
            &&& e & (READ | WRITE | EXECUTE) != 0
            &&& e & 0x3ffu64 == (READ | WRITE | EXECUTE | GLOBAL | VALID)
            &&& e & USER == 0
            &&& (e & PTE_PPN_MASK) >> 10 == i << 18
            &&& (e & PTE_PPN_MASK) << 2 == i << 30
        }) by (bit_vector)
            requires
                1 <= i < 511,
        ;
    }
}


/// Why a request to change the tree was refused. Re-mapping an existing
/// leaf is rejected deterministically; a gigapage or megapage leaf in the
/// middle of the walk cannot be descended through; and the engine refuses
/// to touch the tree at all when the backing allocator lacks room for
/// every table and frame the request needs.
#[derive(Clone, Copy, Debug, PartialEq, Eq, Structural)]
pub enum MapError {
    AlreadyMapped,
    PathLeaf,
    OutOfMemory,
    NotMapped,
}

/// An Sv39 address space: an arena of page tables rooted at table 0,
/// the physical base address of each table, the (ghost) tree level of
/// each table, and the allocator that backs new tables and leaf frames.
pub struct AddressSpace {
    pub entries: Vec<u64>,
    pub addrs: Vec<u64>,
    pub levels: Ghost<Seq<nat>>,
    pub bump: BumpAllocator,
}

impl AddressSpace {
    pub open spec fn num_tables(self) -> int {
        self.addrs@.len() as int
    }

    /// Entry `k` of table `i`; table `i` occupies the 512-entry window
    /// starting at `512 * i` of the arena.
    pub open spec fn entry(self, i: int, k: int) -> u64 {
        self.entries@[512 * i + k]
    }

    /// The index of the table whose physical base address is `a`; under
    /// `wf` the addresses are pairwise distinct, so the index is unique
    /// whenever it exists.
    pub open spec fn addr_index(self, a: u64) -> int {
        choose|j: int| 0 <= j < self.num_tables() && self.addrs@[j] == a
    }

    /// The walk the MMU performs from table `ti` (at `level`) down to a
    /// leaf: `None` when it hits an invalid entry, otherwise the level of
    /// the leaf it stops at, the physical address the leaf points at, and
    /// the leaf's low ten flag bits.
    pub open spec fn lookup_at(self, ti: int, va: u64, level: nat) -> Option<(nat, u64, u64)>
        decreases level,
    {
        let e = self.entry(ti, vpn(va, level) as int);
        if !entry_valid(e) {
            None
        } else if entry_leaf(e) {
            Some((level, entry_target(e), entry_flags(e)))
        } else if level == 0 {
            None
        } else {
            self.lookup_at(self.addr_index(entry_target(e)), va, (level - 1) as nat)
        }
    }

    /// The full three-level walk from the root.
    pub open spec fn translate(self, va: u64) -> Option<(nat, u64, u64)> {
        self.lookup_at(0, va, 2)
    }

    /// True when the walk for `va` meets no leaf above level 0, so a
    /// 4 KiB mapping at `va` is not blocked by a super-page.
    pub open spec fn path_ok(self, ti: int, va: u64, level: nat) -> bool
        decreases level,
    {
        let e = self.entry(ti, vpn(va, level) as int);
        if level == 0 {
            true
        } else if !entry_valid(e) {
            true
        } else if entry_leaf(e) {
            false
        } else {
            self.path_ok(self.addr_index(entry_target(e)), va, (level - 1) as nat)
        }
    }

    /// How many inner tables a 4 KiB mapping at `va` still has to
    /// allocate below table `ti`.
    pub open spec fn missing_tables(self, ti: int, va: u64, level: nat) -> nat
        decreases level,
    {
        if level == 0 {
            0
        } else {
            let e = self.entry(ti, vpn(va, level) as int);
            if !entry_valid(e) {
                level
            } else if entry_leaf(e) {
                0
            } else {
                self.missing_tables(self.addr_index(entry_target(e)), va, (level - 1) as nat)
            }
        }
    }

    /// The backing allocator is sound, stays page-aligned (the engine
    /// only ever takes whole pages from it), and covers only physical
    /// addresses that fit the PPN field of an entry.
    pub open spec fn wf_bump(self) -> bool {
        &&& self.bump.wf()
        &&& self.bump.base + self.bump.len <= MAX_PHYS_ADDR
        &&& self.bump.pos % 4096 == 0
    }

    /// The arena's shape: at least the root table exists, every table has
    /// its level and its 512 entries, the root sits at level 2.
    pub open spec fn wf_sizes(self) -> bool {
        &&& self.num_tables() >= 1
        &&& self.levels@.len() == self.num_tables()
        &&& self.entries@.len() == 512 * self.num_tables()
        &&& self.levels@[0] == 2
        &&& forall|i: int| 0 <= i < self.num_tables() ==> #[trigger] self.levels@[i] <= 2
    }

    /// Every table's physical base address is page-aligned, lies inside
    /// the allocated part of the backing region, and is distinct from
    /// every other table's.
    pub open spec fn wf_addrs(self) -> bool {
        &&& forall|i: int| 0 <= i < self.num_tables() ==> {
            &&& #[trigger] self.addrs@[i] % 4096 == 0
            &&& self.bump.base <= self.addrs@[i]
            &&& self.addrs@[i] + 4096 <= self.bump.base + self.bump.pos
        }
        &&& forall|i: int, j: int|
            0 <= i < j < self.num_tables() ==> #[trigger] self.addrs@[i] != #[trigger] self.addrs@[j]
    }

    /// Every valid non-leaf entry points at a table of the next lower
    /// level that sits strictly later in the arena (so the tree can have
    /// no cycle and in particular no self-loop), and a valid entry of a
    /// level-0 table is always a leaf.
    pub open spec fn wf_entries(self) -> bool {
        &&& forall|i: int, k: int|
            0 <= i < self.num_tables() && 0 <= k < 512 && entry_valid(#[trigger] self.entry(i, k))
                && !entry_leaf(self.entry(i, k)) ==> {
                &&& self.levels@[i] >= 1
                &&& exists|j: int|
                    i < j < self.num_tables() && #[trigger] self.addrs@[j] == entry_target(
                        self.entry(i, k),
                    ) && self.levels@[j] == self.levels@[i] - 1
            }
        &&& forall|i: int, k: int|
            0 <= i < self.num_tables() && 0 <= k < 512 && self.levels@[i] == 0 && entry_valid(
                #[trigger] self.entry(i, k),
            ) ==> entry_leaf(self.entry(i, k))
    }

    /// No two distinct non-leaf entries point at the same table: the
    /// arena is a forest, every table has at most one parent entry.
    pub open spec fn wf_inject(self) -> bool {
        forall|i1: int, k1: int, i2: int, k2: int|
            {
                &&& 0 <= i1 < self.num_tables() && 0 <= k1 < 512
                &&& 0 <= i2 < self.num_tables() && 0 <= k2 < 512
                &&& entry_valid(#[trigger] self.entry(i1, k1)) && !entry_leaf(self.entry(i1, k1))
                &&& entry_valid(#[trigger] self.entry(i2, k2)) && !entry_leaf(self.entry(i2, k2))
                &&& (i1 != i2 || k1 != k2)
            } ==> entry_target(self.entry(i1, k1)) != entry_target(self.entry(i2, k2))
    }

    pub open spec fn wf(self) -> bool {
        &&& self.wf_bump()
        &&& self.wf_sizes()
        &&& self.wf_addrs()
        &&& self.wf_entries()
        &&& self.wf_inject()
    }

    /// The physical base address of the root table, the page `satp`
    /// points at once paging is on.
    pub open spec fn spec_root_addr(self) -> u64 {
        self.addrs@[0]
    }
}

/// Table addresses are unique under `wf`: looking an address back up by
/// `addr_index` returns exactly the table that carries it.
pub proof fn lemma_addr_index_of(s: AddressSpace, j: int)
    requires
        s.wf(),
        0 <= j < s.num_tables(),
    ensures
        s.addr_index(s.addrs@[j]) == j,
{
    let a = s.addrs@[j];
    assert(exists|x: int| 0 <= x < s.num_tables() && s.addrs@[x] == a) by {
        assert(0 <= j < s.num_tables() && s.addrs@[j] == a);
    }
    let x = s.addr_index(a);
    if x != j {
        if x < j {
            assert(s.addrs@[x] != s.addrs@[j]);
        } else {
            assert(s.addrs@[j] != s.addrs@[x]);
        }
        assert(false);
    }
}

/// Following a valid non-leaf entry under `wf`: the child table exists,
/// sits strictly later in the arena (no self-loop), and lives one level
/// below its parent.
pub proof fn lemma_child_index(s: AddressSpace, i: int, k: int)
    requires
        s.wf(),
        0 <= i < s.num_tables(),
        0 <= k < 512,
        entry_valid(s.entry(i, k)),
        !entry_leaf(s.entry(i, k)),
    ensures
        ({
            let j = s.addr_index(entry_target(s.entry(i, k)));
            &&& i < j < s.num_tables()
            &&& j != i
            &&& s.addrs@[j] == entry_target(s.entry(i, k))
            &&& s.levels@[j] == s.levels@[i] - 1
            &&& s.levels@[i] >= 1
        }),
{
    let t = entry_target(s.entry(i, k));
    let jw = choose|j: int|
        i < j < s.num_tables() && #[trigger] s.addrs@[j] == t && s.levels@[j] == s.levels@[i] - 1;
    assert(i < jw < s.num_tables() && s.addrs@[jw] == t && s.levels@[jw] == s.levels@[i] - 1);
    lemma_addr_index_of(s, jw);
}


impl AddressSpace {
    /// Builds a fresh address space on top of `bump`: allocates and
    /// zeroes the root table. Fails, leaving no trace, when the region
    /// has no room for one aligned page.
    pub fn new(bump: BumpAllocator) -> (r: Result<AddressSpace, MapError>)
        requires
            bump.wf(),
            bump.base + bump.len <= MAX_PHYS_ADDR,
        ensures
            r is Ok <==> align_up(bump.pos, 4096) + 4096 <= bump.len,
            r matches Ok(s) ==> {
                &&& s.wf()
                &&& s.num_tables() == 1
                &&& s.bump.base == bump.base
                &&& s.bump.len == bump.len
                &&& s.bump.pos == align_up(bump.pos, 4096) + 4096
                &&& s.spec_root_addr() == bump.base + align_up(bump.pos, 4096)
                &&& forall|va: u64| #[trigger] s.translate(va) is None
                &&& forall|k: int| 0 <= k < 512 ==> s.entry(0, k) == 0
            },
            r matches Err(e) ==> e == MapError::OutOfMemory,
    {
        let ghost bump0 = bump;
        let ghost b0 = bump.base;
        let ghost p0 = bump.pos;
        let mut bump = bump;
        proof {
            assert(4096u64 > 0 && 4096u64 & ((4096u64 - 1) as u64) == 0) by (bit_vector);
        }
        let root_addr = match bump.allocate(0x1000, 0x1000) {
            Some(a) => a,
            None => {
                return Err(MapError::OutOfMemory);
            },
        };
        let mut entries: Vec<u64> = Vec::new();
        let mut i: usize = 0;
        while i < 512
            invariant
                i <= 512,
                entries@.len() == i,
                forall|k: int| 0 <= k < i ==> entries@[k] == 0,
            decreases 512 - i,
        {
            entries.push(0);
            i = i + 1;
        }
        let mut addrs: Vec<u64> = Vec::new();
        addrs.push(root_addr);
        let ghost root_levels: Seq<nat> = seq![2nat];
        let s = AddressSpace { entries, addrs, levels: Ghost(root_levels), bump };
        proof {
            assert(align_up(p0, 4096) % 4096 == 0) by (bit_vector)
                requires
                    p0 <= 0x7fff_ffff_ffff_ffff,
            ;
            assert(root_addr % 4096 == 0) by {
                assert((b0 + align_up(p0, 4096)) as u64 % 4096 == 0) by (bit_vector)
                    requires
                        b0 % 4096 == 0,
                        align_up(p0, 4096) % 4096 == 0,
                        b0 + align_up(p0, 4096) <= u64::MAX,
                ;
            }
            assert(s.bump.pos % 4096 == 0) by {
                assert((align_up(p0, 4096) + 4096) as u64 % 4096 == 0) by (bit_vector)
                    requires
                        align_up(p0, 4096) % 4096 == 0,
                        align_up(p0, 4096) + 4096 <= u64::MAX,
                ;
            }
            assert(!entry_valid(0)) by {
                assert(0u64 & 1u64 == 0) by (bit_vector);
            }
            assert forall|va: u64| #[trigger] s.translate(va) is None by {
                assert(vpn(va, 2) < 512) by {
                    assert((va >> 30) & 0x1ff < 512) by (bit_vector);
                }
                assert(s.entry(0, vpn(va, 2) as int) == 0);
            }
        }
        Ok(s)
    }

    /// The physical base address of the root table.
    pub fn root_addr(&self) -> (r: u64)
        requires
            self.wf(),
        ensures
            r == self.spec_root_addr(),
    {
        self.addrs[0]
    }

    /// The `satp` value that installs this address space: mode 8 (Sv39)
    /// in bits 60..63 and the root table's physical page number below.
    pub fn satp(&self) -> (r: u64)
        requires
            self.wf(),
        ensures
            r == (8u64 << 60) | (self.spec_root_addr() >> 12),
    {
        (8u64 << 60) | (self.addrs[0] >> 12)
    }

    fn read_entry(&self, i: usize, k: usize) -> (e: u64)
        requires
            0 <= 512 * i + k < self.entries@.len(),
        ensures
            e == self.entry(i as int, k as int),
    {
        let n = self.entries.len();
        self.entries[i * 512 + k]
    }

    fn set_entry(&mut self, i: usize, k: usize, e: u64)
        requires
            0 <= 512 * i + k < old(self).entries@.len(),
        ensures
            final(self).entries@ == old(self).entries@.update(512 * i + k, e),
            final(self).addrs == old(self).addrs,
            final(self).levels == old(self).levels,
            final(self).bump == old(self).bump,
    {
        let n = self.entries.len();
        self.entries[i * 512 + k] = e;
    }

    /// Finds the arena index of the table whose physical base address is
    /// `a`, the executable counterpart of `addr_index`.
    fn find_table(&self, a: u64) -> (r: Option<usize>)
        ensures
            r matches Some(j) ==> 0 <= j < self.num_tables() && self.addrs@[j as int] == a,
            r is None ==> forall|j: int| 0 <= j < self.num_tables() ==> self.addrs@[j] != a,
    {
        let mut j: usize = 0;
        while j < self.addrs.len()
            invariant
                j <= self.addrs@.len(),
                forall|x: int| 0 <= x < j ==> self.addrs@[x] != a,
            decreases self.addrs@.len() - j,
        {
            if self.addrs[j] == a {
                return Some(j);
            }
            j = j + 1;
        }
        None
    }

    /// Appends a fresh zeroed table of the given (ghost) level to the
    /// arena, taking one page from the backing allocator. On failure the
    /// address space is untouched.
    fn push_table(&mut self, level: Ghost<nat>) -> (r: Result<usize, MapError>)
        requires
            old(self).wf(),
            level@ <= 2,
        ensures
            r is Ok <==> old(self).bump.pos + 4096 <= old(self).bump.len,
            r matches Err(e) ==> e == MapError::OutOfMemory && *final(self) == *old(self),
            r matches Ok(j) ==> {
                &&& final(self).wf()
                &&& j == old(self).num_tables()
                &&& final(self).num_tables() == old(self).num_tables() + 1
                &&& final(self).addrs@ == old(self).addrs@.push(
                    (old(self).bump.base + old(self).bump.pos) as u64,
                )
                &&& final(self).levels@ == old(self).levels@.push(level@)
                &&& final(self).entries@.len() == old(self).entries@.len() + 512
                &&& forall|x: int|
                    0 <= x < old(self).entries@.len() ==> final(self).entries@[x] == old(
                        self,
                    ).entries@[x]
                &&& forall|k: int| 0 <= k < 512 ==> final(self).entry(j as int, k) == 0
                &&& final(self).bump.base == old(self).bump.base
                &&& final(self).bump.len == old(self).bump.len
                &&& final(self).bump.pos == old(self).bump.pos + 4096
            },
    {
        proof {
            let p0 = old(self).bump.pos;
            assert(0x100u64 > 0 && 0x100u64 & ((0x100u64 - 1) as u64) == 0) by (bit_vector);
            assert(align_up(p0, 0x100) == p0) by (bit_vector)
                requires
                    p0 % 4096 == 0,
                    p0 <= 0x7fff_ffff_ffff_ffff,
            ;
        }
        let a = match self.bump.allocate(0x1000, 0x100) {
            Some(a) => a,
            None => {
                return Err(MapError::OutOfMemory);
            },
        };
        let ghost s0 = *old(self);
        let j = self.addrs.len();
        let mut i: usize = 0;
        while i < 512
            invariant
                i <= 512,
                self.entries@.len() == s0.entries@.len() + i,
                forall|x: int| 0 <= x < s0.entries@.len() ==> self.entries@[x] == s0.entries@[x],
                forall|x: int|
                    s0.entries@.len() <= x < self.entries@.len() ==> self.entries@[x] == 0,
                self.addrs == s0.addrs,
                self.levels == s0.levels,
                self.bump.base == s0.bump.base,
                self.bump.len == s0.bump.len,
                self.bump.pos == s0.bump.pos + 4096,
                self.bump.wf(),
                a == s0.bump.base + s0.bump.pos,
            decreases 512 - i,
        {
            self.entries.push(0);
            i = i + 1;
        }
        self.addrs.push(a);
        proof {
            self.levels@ = s0.levels@.push(level@);
        }
        proof {
            let s1 = *self;
            let bb = s0.bump.base;
            let pp = s0.bump.pos;
            assert(s1.bump.pos % 4096 == 0) by {
                assert((pp + 4096) as u64 % 4096 == 0) by (bit_vector)
                    requires
                        pp % 4096 == 0,
                        pp + 4096 <= u64::MAX,
                ;
            }
            assert(a % 4096 == 0) by {
                assert((bb + pp) as u64 % 4096 == 0) by (bit_vector)
                    requires
                        bb % 4096 == 0,
                        pp % 4096 == 0,
                        bb + pp <= u64::MAX,
                ;
            }
            assert(!entry_valid(0)) by {
                assert(0u64 & 1u64 == 0) by (bit_vector);
            }
            // Old tables keep their entries, so their wf clauses carry over.
            assert forall|i2: int, k2: int|
                0 <= i2 < s1.num_tables() && 0 <= k2 < 512 implies s1.entry(i2, k2) == if i2
                < s0.num_tables() {
                s0.entry(i2, k2)
            } else {
                0u64
            } by {
                if i2 < s0.num_tables() {
                    assert(512 * i2 + k2 < s0.entries@.len());
                } else {
                    assert(s0.entries@.len() <= 512 * i2 + k2 < s1.entries@.len());
                }
            }
            assert(s1.wf_entries()) by {
                assert forall|i2: int, k2: int|
                    0 <= i2 < s1.num_tables() && 0 <= k2 < 512 && entry_valid(
                        #[trigger] s1.entry(i2, k2),
                    ) && !entry_leaf(s1.entry(i2, k2)) implies {
                    &&& s1.levels@[i2] >= 1
                    &&& exists|j2: int|
                        i2 < j2 < s1.num_tables() && #[trigger] s1.addrs@[j2] == entry_target(
                            s1.entry(i2, k2),
                        ) && s1.levels@[j2] == s1.levels@[i2] - 1
                } by {
                    assert(i2 < s0.num_tables());
                    let jw = choose|j2: int|
                        i2 < j2 < s0.num_tables() && #[trigger] s0.addrs@[j2] == entry_target(
                            s0.entry(i2, k2),
                        ) && s0.levels@[j2] == s0.levels@[i2] - 1;
                    assert(s1.addrs@[jw] == s0.addrs@[jw]);
                }
            }
        }
        Ok(j)
    }
}


/// Each virtual page number is a 9-bit field.
proof fn lemma_vpn_bounds(va: u64)
    ensures
        vpn(va, 0) < 512,
        vpn(va, 1) < 512,
        vpn(va, 2) < 512,
{
    assert((va >> 12) & 0x1ff < 512 && (va >> 21) & 0x1ff < 512 && (va >> 30) & 0x1ff < 512)
        by (bit_vector);
}

/// Rounding an address down to its page keeps all three virtual page
/// numbers: the tree walk cannot tell `va` from `page_base(va)`.
proof fn lemma_page_vpns(va: u64)
    ensures
        page_base(va) % 4096 == 0,
        vpn(page_base(va), 0) == vpn(va, 0),
        vpn(page_base(va), 1) == vpn(va, 1),
        vpn(page_base(va), 2) == vpn(va, 2),
{
    assert((va & !0xfffu64) % 4096 == 0 && ((va & !0xfffu64) >> 12) & 0x1ff == (va >> 12) & 0x1ff
        && ((va & !0xfffu64) >> 21) & 0x1ff == (va >> 21) & 0x1ff && ((va & !0xfffu64) >> 30)
        & 0x1ff == (va >> 30) & 0x1ff) by (bit_vector);
}

/// The flag field a new leaf carries: the caller's flags with V forced on
/// and everything above the six useful bits dropped.
proof fn lemma_flag_mask(flags: u64)
    ensures
        ({
            let f = (flags | VALID) & USEFUL_FLAGS_MASK;
            &&& f & VALID != 0
            &&& f <= 0x3f
            &&& (flags & (READ | WRITE | EXECUTE) != 0 ==> f & (READ | WRITE | EXECUTE) != 0)
        }),
{
    assert({
        let f = (flags | VALID) & USEFUL_FLAGS_MASK;
        &&& f & VALID != 0
        &&& f <= 0x3f
        &&& (flags & (READ | WRITE | EXECUTE) != 0 ==> f & (READ | WRITE | EXECUTE) != 0)
    }) by (bit_vector);
}

/// Shape of a freshly packed leaf entry: valid, carrying exactly the
/// requested flag bits, and pointing back at the frame it was packed
/// from.
proof fn lemma_leaf_entry(pa: u64, f: u64)
    requires
        pa % 4096 == 0,
        pa < ENTRY_TARGET_LIMIT,
        f & VALID != 0,
        f <= 0x3f,
    ensures
        ({
            let e = ((pa >> 2) & PTE_PPN_MASK) | VALID | f;
            &&& entry_valid(e)
            &&& entry_target(e) == pa
            &&& entry_flags(e) == f
            &&& (entry_leaf(e) <==> f & (READ | WRITE | EXECUTE) != 0)
        }),
{
    assert({
        let e = ((pa >> 2) & PTE_PPN_MASK) | VALID | f;
        &&& e & VALID != 0
        &&& (e & PTE_PPN_MASK) << 2 == pa
        &&& e & 0x3ffu64 == f
        &&& (e & (READ | WRITE | EXECUTE) != 0 <==> f & (READ | WRITE | EXECUTE) != 0)
    }) by (bit_vector)
        requires
            pa % 4096 == 0,
            pa < 0x400_0000_0000_0000,
            f & VALID != 0,
            f <= 0x3f,
    ;
}

/// Shape of a freshly packed non-leaf entry: valid, no R/W/X bits, and
/// pointing back at the child table it was packed from.
proof fn lemma_table_entry(a: u64)
    requires
        a % 4096 == 0,
        a < MAX_PHYS_ADDR,
    ensures
        ({
            let e = ((a >> 2) & PTE_PPN_MASK) | VALID;
            &&& entry_valid(e)
            &&& !entry_leaf(e)
            &&& entry_target(e) == a
        }),
{
    assert({
        let e = ((a >> 2) & PTE_PPN_MASK) | VALID;
        &&& e & VALID != 0
        &&& e & (READ | WRITE | EXECUTE) == 0
        &&& (e & PTE_PPN_MASK) << 2 == a
    }) by (bit_vector)
        requires
            a % 4096 == 0,
            a < 0x100_0000_0000_0000,
    ;
}

/// A page-aligned cursor is unmoved by 256-byte alignment and stays
/// page-aligned after whole pages are taken.
proof fn lemma_page_cursor(p: u64)
    requires
        p % 4096 == 0,
        p <= 0x7fff_ffff_ffff_ffff,
    ensures
        align_up(p, 0x100) == p,
        ((p + 4096) as u64) % 4096 == 0,
        is_pow2(0x100),
{
    assert(align_up(p, 0x100) == p && ((p + 4096) as u64) % 4096 == 0 && 0x100u64 & ((0x100u64
        - 1) as u64) == 0) by (bit_vector)
        requires
            p % 4096 == 0,
            p <= 0x7fff_ffff_ffff_ffff,
    ;
}


impl AddressSpace {
    /// Maps the 4 KiB page containing `virt` to a freshly allocated,
    /// zeroed frame carrying `flags` (V is forced on and only the six
    /// useful bits are kept), and returns the frame's physical address.
    /// Re-mapping an already-mapped page is rejected deterministically
    /// with `AlreadyMapped`; a super-page leaf in the walk is rejected
    /// with `PathLeaf`; and the tree is left completely untouched unless
    /// the backing allocator has room for every missing inner table plus
    /// the frame, so a failed call never changes the address space.
    #[verifier::rlimit(60)]
    pub fn map_page(&mut self, virt: u64, flags: u64) -> (r: Result<u64, MapError>)
        requires
            old(self).wf(),
            flags & (READ | WRITE | EXECUTE) != 0,
        ensures
            final(self).wf(),
            final(self).bump.base == old(self).bump.base,
            final(self).bump.len == old(self).bump.len,
            old(self).addrs@.is_prefix_of(final(self).addrs@),
            r is Ok <==> (old(self).path_ok(0, virt, 2) && old(self).translate(virt) is None
                && old(self).bump.pos + 4096 * (old(self).missing_tables(0, virt, 2) + 1) <= old(
                self,
            ).bump.len),
            r matches Err(e) ==> *final(self) == *old(self) && (match e {
                MapError::AlreadyMapped => old(self).path_ok(0, virt, 2) && old(self).translate(
                    virt,
                ) is Some,
                MapError::PathLeaf => !old(self).path_ok(0, virt, 2),
                MapError::OutOfMemory => old(self).path_ok(0, virt, 2) && old(self).translate(
                    virt,
                ) is None && old(self).bump.pos + 4096 * (old(self).missing_tables(0, virt, 2)
                    + 1) > old(self).bump.len,
                MapError::NotMapped => false,
            }),
            r matches Ok(pa) ==> {
                &&& pa == old(self).bump.base + old(self).bump.pos + 4096 * old(
                    self,
                ).missing_tables(0, virt, 2)
                &&& pa % 4096 == 0
                &&& final(self).bump.pos == old(self).bump.pos + 4096 * (old(self).missing_tables(
                    0,
                    virt,
                    2,
                ) + 1)
                &&& final(self).translate(virt) == Some(
                    (0nat, pa, (flags | VALID) & USEFUL_FLAGS_MASK),
                )
                &&& forall|va: u64|
                    !same_vpns(va, virt) ==> final(self).translate(va) == old(self).translate(va)
            },
    {
        let ghost s0 = *old(self);
        proof {
            lemma_page_vpns(virt);
            lemma_vpn_bounds(virt);
            lemma_flag_mask(flags);
        }
        let page = virt & !0xfff;
        let f = (flags | VALID) & USEFUL_FLAGS_MASK;
        let k2 = ((page >> 30) & 0x1ff) as usize;
        let k1 = ((page >> 21) & 0x1ff) as usize;
        let k0 = ((page >> 12) & 0x1ff) as usize;
        proof {
            assert(k2 == vpn(virt, 2) && k1 == vpn(virt, 1) && k0 == vpn(virt, 0));
        }
        // Walk phase: read the existing path, without touching anything.
        let mut t1_existing: usize = 0;
        let mut have_t1 = false;
        let mut t0_existing: usize = 0;
        let mut have_t0 = false;
        let e2 = self.read_entry(0, k2);
        if e2 & VALID != 0 {
            if e2 & (READ | WRITE | EXECUTE) != 0 {
                proof {
                    assert(!s0.path_ok(0, virt, 2));
                }
                return Err(MapError::PathLeaf);
            }
            have_t1 = true;
            let target2 = (e2 & PTE_PPN_MASK) << 2;
            t1_existing = match self.find_table(target2) {
                Some(j) => j,
                None => {
                    proof {
                        lemma_child_index(s0, 0, k2 as int);
                        assert(false);
                    }
                    0
                },
            };
            proof {
                lemma_child_index(s0, 0, k2 as int);
                lemma_addr_index_of(s0, t1_existing as int);
                assert(s0.addr_index(entry_target(e2)) == t1_existing as int);
                assert(s0.levels@[t1_existing as int] == 1);
            }
            let e1 = self.read_entry(t1_existing, k1);
            if e1 & VALID != 0 {
                if e1 & (READ | WRITE | EXECUTE) != 0 {
                    proof {
                        assert(!s0.path_ok(t1_existing as int, virt, 1));
                        assert(!s0.path_ok(0, virt, 2));
                    }
                    return Err(MapError::PathLeaf);
                }
                have_t0 = true;
                let target1 = (e1 & PTE_PPN_MASK) << 2;
                t0_existing = match self.find_table(target1) {
                    Some(j) => j,
                    None => {
                        proof {
                            lemma_child_index(s0, t1_existing as int, k1 as int);
                            assert(false);
                        }
                        0
                    },
                };
                proof {
                    lemma_child_index(s0, t1_existing as int, k1 as int);
                    lemma_addr_index_of(s0, t0_existing as int);
                    assert(s0.addr_index(entry_target(e1)) == t0_existing as int);
                    assert(s0.levels@[t0_existing as int] == 0);
                }
                let e0 = self.read_entry(t0_existing, k0);
                if e0 & VALID != 0 {
                    proof {
                        assert(s0.lookup_at(t0_existing as int, virt, 0) is Some);
                        assert(s0.lookup_at(t1_existing as int, virt, 1) is Some);
                        assert(s0.translate(virt) is Some);
                        assert(s0.path_ok(t0_existing as int, virt, 0));
                        assert(s0.path_ok(t1_existing as int, virt, 1));
                        assert(s0.path_ok(0, virt, 2));
                    }
                    return Err(MapError::AlreadyMapped);
                }
                proof {
                    assert(s0.lookup_at(t0_existing as int, virt, 0) is None);
                    assert(s0.lookup_at(t1_existing as int, virt, 1) is None);
                    assert(s0.translate(virt) is None);
                    assert(s0.path_ok(t0_existing as int, virt, 0));
                    assert(s0.path_ok(t1_existing as int, virt, 1));
                    assert(s0.path_ok(0, virt, 2));
                    assert(s0.missing_tables(t0_existing as int, virt, 0) == 0);
                    assert(s0.missing_tables(t1_existing as int, virt, 1) == 0);
                    assert(s0.missing_tables(0, virt, 2) == 0);
                }
            } else {
                proof {
                    assert(s0.lookup_at(t1_existing as int, virt, 1) is None);
                    assert(s0.translate(virt) is None);
                    assert(s0.path_ok(t1_existing as int, virt, 1));
                    assert(s0.path_ok(0, virt, 2));
                    assert(s0.missing_tables(t1_existing as int, virt, 1) == 1);
                    assert(s0.missing_tables(0, virt, 2) == 1);
                }
            }
        } else {
            proof {
                assert(s0.translate(virt) is None);
                assert(s0.path_ok(0, virt, 2));
                assert(s0.missing_tables(0, virt, 2) == 2);
            }
        }
        let miss: u64 = if !have_t1 {
            2
        } else if !have_t0 {
            1
        } else {
            0
        };
        proof {
            assert(s0.missing_tables(0, virt, 2) == miss);
        }
        // Room check: refuse up front, so failure never mutates the tree.
        let pos_now = self.bump.pos();
        let len_now = self.bump.len();
        if pos_now + (miss + 1) * 4096 > len_now {
            return Err(MapError::OutOfMemory);
        }
        // Mutation phase: allocate the missing tables, then the frame,
        // then pack the entries, exactly as the recursive descent would.
        let t1: usize = if !have_t1 {
            match self.push_table(Ghost(1nat)) {
                Ok(j) => j,
                Err(_) => {
                    return Err(MapError::OutOfMemory);
                },
            }
        } else {
            t1_existing
        };
        let ghost sA1 = *self;
        let t0: usize = if !have_t0 {
            match self.push_table(Ghost(0nat)) {
                Ok(j) => j,
                Err(_) => {
                    return Err(MapError::OutOfMemory);
                },
            }
        } else {
            t0_existing
        };
        let ghost sA2 = *self;
        proof {
            lemma_page_cursor(self.bump.pos);
        }
        let pa = match self.bump.allocate(0x1000, 0x100) {
            Some(pa) => pa,
            None => {
                proof {
                    assert(false);
                }
                return Err(MapError::OutOfMemory);
            },
        };
        let ghost nt0 = s0.num_tables();
        if !have_t1 {
            let a1 = self.addrs[t1];
            proof {
                lemma_table_entry(a1);
            }
            let te = ((a1 >> 2) & PTE_PPN_MASK) | VALID;
            self.set_entry(0, k2, te);
        }
        if !have_t0 {
            let a0 = self.addrs[t0];
            proof {
                lemma_table_entry(a0);
            }
            let te = ((a0 >> 2) & PTE_PPN_MASK) | VALID;
            self.set_entry(t1, k1, te);
        }
        proof {
            lemma_leaf_entry(pa, f);
        }
        let le = ((pa >> 2) & PTE_PPN_MASK) | VALID | f;
        self.set_entry(t0, k0, le);
        proof {
            let s1 = *self;
            assert forall|i: int, k: int| 0 <= i < s1.num_tables() && 0 <= k < 512 implies
                #[trigger] s1.entry(i, k) == (if miss == 2 && i == 0 && k == vpn(virt, 2) {
                    table_entry_of(s1.addrs@[t1 as int])
                } else if miss >= 1 && i == t1 as int && k == vpn(virt, 1) {
                    table_entry_of(s1.addrs@[t0 as int])
                } else if i == t0 as int && k == vpn(virt, 0) {
                    leaf_entry_of(pa, f)
                } else if i < nt0 {
                    s0.entry(i, k)
                } else {
                    0u64
                }) by {
                if i != t0 as int || k != vpn(virt, 0) {
                    lemma_slot_distinct(i, k, t0 as int, vpn(virt, 0) as int);
                }
                if miss >= 1 && (i != t1 as int || k != vpn(virt, 1)) {
                    lemma_slot_distinct(i, k, t1 as int, vpn(virt, 1) as int);
                }
                if miss == 2 && (i != 0 || k != vpn(virt, 2)) {
                    lemma_slot_distinct(i, k, 0, vpn(virt, 2) as int);
                }
                assert(512 * i + k < 512 * (i + 1));
                if i < nt0 {
                    assert(512 * (i + 1) <= 512 * nt0);
                    assert(sA1.entries@[512 * i + k] == s0.entries@[512 * i + k]);
                    assert(sA2.entries@[512 * i + k] == sA1.entries@[512 * i + k]);
                } else if miss == 2 && i == t1 as int {
                    assert(sA1.entry(i, k) == 0);
                    assert(sA2.entries@[512 * i + k] == sA1.entries@[512 * i + k]);
                } else {
                    assert(i == t0 as int);
                    assert(sA2.entry(i, k) == 0);
                }
            }
            map_page_proof(s0, s1, virt, f, miss as int, t1 as int, t0 as int, pa);
        }
        Ok(pa)
    }
}


/// The packed form of a non-leaf entry pointing at table base `a`.
pub open spec fn table_entry_of(a: u64) -> u64 {
    ((a >> 2) & PTE_PPN_MASK) | VALID
}

/// The packed form of a leaf entry pointing at frame `pa` with flag
/// field `f`.
pub open spec fn leaf_entry_of(pa: u64, f: u64) -> u64 {
    ((pa >> 2) & PTE_PPN_MASK) | VALID | f
}

/// Two distinct (table, slot) pairs live at distinct arena positions.
proof fn lemma_slot_distinct(i1: int, k1: int, i2: int, k2: int)
    requires
        0 <= i1,
        0 <= i2,
        0 <= k1 < 512,
        0 <= k2 < 512,
        i1 != i2 || k1 != k2,
    ensures
        512 * i1 + k1 != 512 * i2 + k2,
{
    if i1 < i2 {
        assert(512 * i1 + k1 < 512 * (i1 + 1));
        assert(512 * (i1 + 1) <= 512 * i2);
    } else if i2 < i1 {
        assert(512 * i2 + k2 < 512 * (i2 + 1));
        assert(512 * (i2 + 1) <= 512 * i1);
    }
}

/// The heart of `map_page`: given the state `s0` before and `s1` after
/// the writes (one new leaf entry at the level-0 slot of `virt`, plus a
/// non-leaf entry for each table that had to be created), this proves
/// that the tree is still well formed, that the walk for `virt` now ends
/// at the new frame with the requested flags, and that the walk for any
/// address with a different slot path is exactly what it was before.
#[verifier::rlimit(100)]
proof fn map_page_proof(
    s0: AddressSpace,
    s1: AddressSpace,
    virt: u64,
    f: u64,
    miss: int,
    t1: int,
    t0: int,
    pa: u64,
)
    requires
        s0.wf(),
        f & VALID != 0,
        f <= 0x3f,
        f & (READ | WRITE | EXECUTE) != 0,
        0 <= miss <= 2,
        s1.num_tables() == s0.num_tables() + miss,
        s1.levels@.len() == s1.num_tables(),
        s1.entries@.len() == 512 * s1.num_tables(),
        s0.addrs@.is_prefix_of(s1.addrs@),
        s0.levels@.is_prefix_of(s1.levels@),
        s1.bump.base == s0.bump.base,
        s1.bump.len == s0.bump.len,
        s1.bump.wf(),
        s1.bump.pos % 4096 == 0,
        s1.bump.pos == s0.bump.pos + 4096 * (miss + 1),
        s1.bump.base + s1.bump.len <= MAX_PHYS_ADDR,
        0 <= t1 < s1.num_tables(),
        0 <= t0 < s1.num_tables(),
        s1.levels@[t1] == 1,
        s1.levels@[t0] == 0,
        forall|i: int|
            0 <= i < s1.num_tables() ==> {
                &&& #[trigger] s1.addrs@[i] % 4096 == 0
                &&& s1.bump.base <= s1.addrs@[i]
                &&& s1.addrs@[i] + 4096 <= s1.bump.base + s1.bump.pos
            },
        forall|i: int, j: int|
            0 <= i < j < s1.num_tables() ==> #[trigger] s1.addrs@[i] != #[trigger] s1.addrs@[j],
        miss == 2 ==> t1 == s0.num_tables() && t0 == s0.num_tables() + 1 && s1.addrs@[t1]
            == s0.bump.base + s0.bump.pos && s1.addrs@[t0] == s0.bump.base + s0.bump.pos + 4096,
        miss == 1 ==> t1 < s0.num_tables() && t0 == s0.num_tables() && s1.addrs@[t0]
            == s0.bump.base + s0.bump.pos,
        miss == 0 ==> t1 < s0.num_tables() && t0 < s0.num_tables(),
        pa == s0.bump.base + s0.bump.pos + 4096 * miss,
        pa % 4096 == 0,
        // What the walk phase saw of the old path.
        s0.path_ok(0, virt, 2),
        s0.translate(virt) is None,
        s0.missing_tables(0, virt, 2) == miss,
        miss == 2 ==> !entry_valid(s0.entry(0, vpn(virt, 2) as int)),
        miss < 2 ==> entry_valid(s0.entry(0, vpn(virt, 2) as int)) && !entry_leaf(
            s0.entry(0, vpn(virt, 2) as int),
        ) && entry_target(s0.entry(0, vpn(virt, 2) as int)) == s1.addrs@[t1],
        miss == 1 ==> !entry_valid(s0.entry(t1, vpn(virt, 1) as int)),
        miss == 0 ==> entry_valid(s0.entry(t1, vpn(virt, 1) as int)) && !entry_leaf(
            s0.entry(t1, vpn(virt, 1) as int),
        ) && entry_target(s0.entry(t1, vpn(virt, 1) as int)) == s1.addrs@[t0] && !entry_valid(
            s0.entry(t0, vpn(virt, 0) as int),
        ),
        // The new arena contents.
        forall|i: int, k: int|
            0 <= i < s1.num_tables() && 0 <= k < 512 ==> #[trigger] s1.entry(i, k) == (if miss == 2
                && i == 0 && k == vpn(virt, 2) {
                table_entry_of(s1.addrs@[t1])
            } else if miss >= 1 && i == t1 && k == vpn(virt, 1) {
                table_entry_of(s1.addrs@[t0])
            } else if i == t0 && k == vpn(virt, 0) {
                leaf_entry_of(pa, f)
            } else if i < s0.num_tables() {
                s0.entry(i, k)
            } else {
                0u64
            }),
    ensures
        s1.wf(),
        s1.translate(virt) == Some((0nat, pa, f)),
        forall|va: u64| !same_vpns(va, virt) ==> s1.translate(va) == s0.translate(va),
{
    let nt0 = s0.num_tables();
    let nt1 = s1.num_tables();
    let vp2 = vpn(virt, 2) as int;
    let vp1 = vpn(virt, 1) as int;
    let vp0 = vpn(virt, 0) as int;
    lemma_vpn_bounds(virt);
    assert forall|i: int| 0 <= i < nt0 implies s1.levels@[i] == s0.levels@[i] by {
        assert(s0.levels@[i] == s1.levels@.subrange(0, s0.levels@.len() as int)[i]);
    }
    assert forall|i: int| 0 <= i < nt0 implies s1.addrs@[i] == s0.addrs@[i] by {
        assert(s0.addrs@[i] == s1.addrs@.subrange(0, s0.addrs@.len() as int)[i]);
    }
    assert(s1.levels@[0] == 2);
    assert forall|i: int| 0 <= i < s1.num_tables() implies #[trigger] s1.levels@[i] <= 2 by {
        if i >= nt0 {
            assert(i == t1 || i == t0);
        }
    }
    assert(pa < MAX_PHYS_ADDR);
    lemma_leaf_entry(pa, f);
    let a1 = s1.addrs@[t1];
    let a0 = s1.addrs@[t0];
    lemma_table_entry(a1);
    lemma_table_entry(a0);
    let te1 = table_entry_of(a1);
    let te0 = table_entry_of(a0);
    let le = leaf_entry_of(pa, f);
    assert(!entry_valid(0)) by {
        assert(0u64 & 1u64 == 0) by (bit_vector);
    }
    // The three written slots are pairwise distinct.
    assert(s1.levels@[0] == 2);
    assert(t1 != 0 && t0 != 0 && t0 != t1);
    // Every old non-leaf entry points at an old table, hence strictly
    // below the addresses of the tables created here.
    assert forall|i: int, k: int|
        0 <= i < nt0 && 0 <= k < 512 && entry_valid(#[trigger] s0.entry(i, k)) && !entry_leaf(
            s0.entry(i, k),
        ) implies entry_target(s0.entry(i, k)) + 4096 <= s0.bump.base + s0.bump.pos by {
        let jw = choose|j: int|
            i < j < nt0 && #[trigger] s0.addrs@[j] == entry_target(s0.entry(i, k)) && s0.levels@[j]
                == s0.levels@[i] - 1;
        assert(s0.addrs@[jw] + 4096 <= s0.bump.base + s0.bump.pos);
    }
    // Well-formedness of the new state.
    assert(s1.wf_bump());
    assert(s1.wf_sizes());
    assert(s1.wf_addrs());
    assert(s1.wf_entries()) by {
        assert forall|i: int, k: int|
            0 <= i < nt1 && 0 <= k < 512 && entry_valid(#[trigger] s1.entry(i, k)) && !entry_leaf(
                s1.entry(i, k),
            ) implies {
            &&& s1.levels@[i] >= 1
            &&& exists|j: int|
                i < j < nt1 && #[trigger] s1.addrs@[j] == entry_target(s1.entry(i, k))
                    && s1.levels@[j] == s1.levels@[i] - 1
        } by {
            if miss == 2 && i == 0 && k == vp2 {
                assert(s1.addrs@[t1] == entry_target(te1) && s1.levels@[t1] == 1);
            } else if miss >= 1 && i == t1 && k == vp1 {
                assert(s1.addrs@[t0] == entry_target(te0) && s1.levels@[t0] == 0);
            } else if i == t0 && k == vp0 {
                assert(entry_leaf(s1.entry(i, k)));
            } else if i < nt0 {
                let jw = choose|j: int|
                    i < j < nt0 && #[trigger] s0.addrs@[j] == entry_target(s0.entry(i, k))
                        && s0.levels@[j] == s0.levels@[i] - 1;
                assert(s1.addrs@[jw] == s0.addrs@[jw]);
                assert(s1.levels@[jw] == s0.levels@[jw]);
            }
        }
        assert forall|i: int, k: int|
            0 <= i < nt1 && 0 <= k < 512 && s1.levels@[i] == 0 && entry_valid(
                #[trigger] s1.entry(i, k),
            ) implies entry_leaf(s1.entry(i, k)) by {
            if i == t0 && k == vp0 {
            } else if i < nt0 {
            }
        }
    }
    assert(s1.wf_inject()) by {
        assert forall|i1: int, k1: int, i2: int, k2: int|
            {
                &&& 0 <= i1 < nt1 && 0 <= k1 < 512
                &&& 0 <= i2 < nt1 && 0 <= k2 < 512
                &&& entry_valid(#[trigger] s1.entry(i1, k1)) && !entry_leaf(s1.entry(i1, k1))
                &&& entry_valid(#[trigger] s1.entry(i2, k2)) && !entry_leaf(s1.entry(i2, k2))
                &&& (i1 != i2 || k1 != k2)
            } implies entry_target(s1.entry(i1, k1)) != entry_target(s1.entry(i2, k2)) by {
            let new1 = (miss == 2 && i1 == 0 && k1 == vp2) || (miss >= 1 && i1 == t1 && k1 == vp1);
            let new2 = (miss == 2 && i2 == 0 && k2 == vp2) || (miss >= 1 && i2 == t1 && k2 == vp1);
            if !new1 {
                assert(s1.entry(i1, k1) == s0.entry(i1, k1) && i1 < nt0);
            }
            if !new2 {
                assert(s1.entry(i2, k2) == s0.entry(i2, k2) && i2 < nt0);
            }
        }
    }
    assert(s1.wf());
    // The walk for virt in the new state.
    let j2 = if miss == 2 {
        t1
    } else {
        s1.addr_index(entry_target(s1.entry(0, vp2)))
    };
    assert(s1.entry(0, vp2) == if miss == 2 {
        te1
    } else {
        s0.entry(0, vp2)
    });
    lemma_addr_index_of(s1, t1);
    assert(s1.addr_index(a1) == t1);
    assert(entry_valid(s1.entry(0, vp2)) && !entry_leaf(s1.entry(0, vp2)) && entry_target(
        s1.entry(0, vp2),
    ) == a1);
    assert(s1.entry(t1, vp1) == if miss >= 1 {
        te0
    } else {
        s0.entry(t1, vp1)
    });
    lemma_addr_index_of(s1, t0);
    assert(s1.addr_index(a0) == t0);
    assert(entry_valid(s1.entry(t1, vp1)) && !entry_leaf(s1.entry(t1, vp1)) && entry_target(
        s1.entry(t1, vp1),
    ) == a0);
    assert(s1.entry(t0, vp0) == le);
    assert(s1.lookup_at(t0, virt, 0) == Some((0nat, pa, f)));
    assert(s1.lookup_at(t1, virt, 1) == Some((0nat, pa, f)));
    assert(s1.translate(virt) == Some((0nat, pa, f)));
    // Walks for every other slot path are untouched.
    assert forall|va: u64| !same_vpns(va, virt) implies s1.translate(va) == s0.translate(va) by {
        lemma_vpn_bounds(va);
        let w2 = vpn(va, 2) as int;
        let w1 = vpn(va, 1) as int;
        let w0 = vpn(va, 0) as int;
        if w2 != vp2 {
            assert(s1.entry(0, w2) == s0.entry(0, w2));
            let e = s0.entry(0, w2);
            if !entry_valid(e) {
                assert(s1.translate(va) is None && s0.translate(va) is None);
            } else if entry_leaf(e) {
                assert(s1.translate(va) == s0.translate(va));
            } else {
                lemma_child_index(s0, 0, w2);
                let c2 = s0.addr_index(entry_target(e));
                lemma_addr_index_of(s1, c2);
                assert(s1.addrs@[c2] == s0.addrs@[c2]);
                assert(s1.addr_index(entry_target(e)) == c2);
                assert(c2 != t1) by {
                    if miss < 2 {
                        assert(s0.entry(0, vp2) != e || vp2 == w2);
                    }
                }
                assert(c2 != t0 && c2 != 0);
                assert(s1.entry(c2, w1) == s0.entry(c2, w1));
                let e1 = s0.entry(c2, w1);
                if !entry_valid(e1) {
                    assert(s1.lookup_at(c2, va, 1) is None && s0.lookup_at(c2, va, 1) is None);
                } else if entry_leaf(e1) {
                    assert(s1.lookup_at(c2, va, 1) == s0.lookup_at(c2, va, 1));
                } else {
                    lemma_child_index(s0, c2, w1);
                    let c1 = s0.addr_index(entry_target(e1));
                    lemma_addr_index_of(s1, c1);
                    assert(s1.addr_index(entry_target(e1)) == c1);
                    assert(c1 != t0) by {
                        if miss == 0 {
                            assert(c2 != t1 || w1 != vp1);
                        }
                    }
                    assert(c1 != t1 && c1 != 0);
                    assert(s1.entry(c1, w0) == s0.entry(c1, w0));
                    assert(s1.lookup_at(c1, va, 0) == s0.lookup_at(c1, va, 0));
                    assert(s1.lookup_at(c2, va, 1) == s0.lookup_at(c2, va, 1));
                }
                assert(s1.translate(va) == s0.translate(va));
            }
        } else if w1 != vp1 {
            if miss == 2 {
                assert(!entry_valid(s0.entry(0, w2)));
                assert(s0.translate(va) is None);
                assert(s1.entry(0, w2) == te1);
                assert(s1.entry(t1, w1) == 0);
                assert(s1.lookup_at(t1, va, 1) is None);
                assert(s1.translate(va) is None);
            } else {
                assert(s1.entry(0, w2) == s0.entry(0, w2));
                let e = s0.entry(0, w2);
                assert(entry_valid(e) && !entry_leaf(e) && entry_target(e) == a1);
                assert(s0.addr_index(entry_target(e)) == t1) by {
                    lemma_addr_index_of(s0, t1);
                    assert(s0.addrs@[t1] == a1);
                }
                assert(s1.addr_index(entry_target(e)) == t1);
                assert(s1.entry(t1, w1) == s0.entry(t1, w1));
                let e1 = s0.entry(t1, w1);
                if !entry_valid(e1) {
                    assert(s1.lookup_at(t1, va, 1) is None && s0.lookup_at(t1, va, 1) is None);
                } else if entry_leaf(e1) {
                    assert(s1.lookup_at(t1, va, 1) == s0.lookup_at(t1, va, 1));
                } else {
                    lemma_child_index(s0, t1, w1);
                    let c1 = s0.addr_index(entry_target(e1));
                    lemma_addr_index_of(s1, c1);
                    assert(s1.addr_index(entry_target(e1)) == c1);
                    assert(c1 != t0) by {
                        if miss == 0 {
                            assert(w1 != vp1);
                        }
                    }
                    assert(c1 != t1 && c1 != 0);
                    assert(s1.entry(c1, w0) == s0.entry(c1, w0));
                    assert(s1.lookup_at(c1, va, 0) == s0.lookup_at(c1, va, 0));
                    assert(s1.lookup_at(t1, va, 1) == s0.lookup_at(t1, va, 1));
                }
                assert(s1.translate(va) == s0.translate(va));
            }
        } else {
            assert(w0 != vp0);
            if miss == 2 {
                assert(!entry_valid(s0.entry(0, w2)));
                assert(s0.translate(va) is None);
                assert(s1.entry(t0, w0) == 0);
                assert(s1.lookup_at(t0, va, 0) is None);
                assert(s1.lookup_at(t1, va, 1) is None);
                assert(s1.translate(va) is None);
            } else if miss == 1 {
                assert(s1.entry(0, w2) == s0.entry(0, w2));
                let e = s0.entry(0, w2);
                assert(entry_valid(e) && !entry_leaf(e) && entry_target(e) == a1);
                assert(s0.addr_index(entry_target(e)) == t1) by {
                    lemma_addr_index_of(s0, t1);
                }
                assert(s1.addr_index(entry_target(e)) == t1);
                assert(!entry_valid(s0.entry(t1, w1)));
                assert(s0.lookup_at(t1, va, 1) is None);
                assert(s0.translate(va) is None);
                assert(s1.entry(t1, w1) == te0);
                assert(s1.entry(t0, w0) == 0);
                assert(s1.lookup_at(t0, va, 0) is None);
                assert(s1.lookup_at(t1, va, 1) is None);
                assert(s1.translate(va) is None);
            } else {
                assert(s1.entry(0, w2) == s0.entry(0, w2));
                let e = s0.entry(0, w2);
                assert(s0.addr_index(entry_target(e)) == t1) by {
                    lemma_addr_index_of(s0, t1);
                }
                assert(s1.addr_index(entry_target(e)) == t1);
                assert(s1.entry(t1, w1) == s0.entry(t1, w1));
                let e1 = s0.entry(t1, w1);
                assert(entry_valid(e1) && !entry_leaf(e1) && entry_target(e1) == a0);
                assert(s0.addr_index(entry_target(e1)) == t0) by {
                    lemma_addr_index_of(s0, t0);
                }
                assert(s1.addr_index(entry_target(e1)) == t0);
                assert(s1.entry(t0, w0) == s0.entry(t0, w0));
                assert(s1.lookup_at(t0, va, 0) == s0.lookup_at(t0, va, 0));
                assert(s1.lookup_at(t1, va, 1) == s0.lookup_at(t1, va, 1));
                assert(s1.translate(va) == s0.translate(va));
            }
        }
    }
}


/// The companion of `remap_page`: with exactly the level-0 slot of
/// `virt` rewritten to a new leaf for the same frame, the tree stays
/// well formed, the walk for `virt` now reports the new flags, and every
/// other slot path reads exactly what it did before.
#[verifier::rlimit(100)]
proof fn remap_page_proof(s0: AddressSpace, s1: AddressSpace, virt: u64, f: u64, t1: int, t0: int, pa: u64)
    requires
        s0.wf(),
        f & VALID != 0,
        f <= 0x3f,
        f & (READ | WRITE | EXECUTE) != 0,
        s1.addrs == s0.addrs,
        s1.levels == s0.levels,
        s1.bump == s0.bump,
        s1.entries@.len() == s0.entries@.len(),
        0 <= t1 < s0.num_tables(),
        0 <= t0 < s0.num_tables(),
        s0.levels@[t1] == 1,
        s0.levels@[t0] == 0,
        entry_valid(s0.entry(0, vpn(virt, 2) as int)),
        !entry_leaf(s0.entry(0, vpn(virt, 2) as int)),
        entry_target(s0.entry(0, vpn(virt, 2) as int)) == s0.addrs@[t1],
        entry_valid(s0.entry(t1, vpn(virt, 1) as int)),
        !entry_leaf(s0.entry(t1, vpn(virt, 1) as int)),
        entry_target(s0.entry(t1, vpn(virt, 1) as int)) == s0.addrs@[t0],
        entry_valid(s0.entry(t0, vpn(virt, 0) as int)),
        entry_target(s0.entry(t0, vpn(virt, 0) as int)) == pa,
        pa % 4096 == 0,
        pa < ENTRY_TARGET_LIMIT,
        forall|i: int, k: int|
            0 <= i < s1.num_tables() && 0 <= k < 512 ==> #[trigger] s1.entry(i, k) == (if i == t0
                && k == vpn(virt, 0) {
                leaf_entry_of(pa, f)
            } else {
                s0.entry(i, k)
            }),
    ensures
        s1.wf(),
        s1.translate(virt) == Some((0nat, pa, f)),
        forall|va: u64| !same_vpns(va, virt) ==> s1.translate(va) == s0.translate(va),
{
    let nt = s0.num_tables();
    let vp2 = vpn(virt, 2) as int;
    let vp1 = vpn(virt, 1) as int;
    let vp0 = vpn(virt, 0) as int;
    lemma_vpn_bounds(virt);
    lemma_leaf_entry(pa, f);
    let le = leaf_entry_of(pa, f);
    assert(s1.levels@[0] == 2);
    assert(t1 != 0 && t0 != 0 && t0 != t1);
    // Well-formedness: the only changed entry is a leaf in a level-0
    // table, which neither the child-pointer clauses nor injectivity
    // constrain.
    assert(s1.wf_bump() && s1.wf_sizes() && s1.wf_addrs());
    assert(s1.wf_entries()) by {
        assert forall|i: int, k: int|
            0 <= i < nt && 0 <= k < 512 && entry_valid(#[trigger] s1.entry(i, k)) && !entry_leaf(
                s1.entry(i, k),
            ) implies {
            &&& s1.levels@[i] >= 1
            &&& exists|j: int|
                i < j < nt && #[trigger] s1.addrs@[j] == entry_target(s1.entry(i, k))
                    && s1.levels@[j] == s1.levels@[i] - 1
        } by {
            assert(s1.entry(i, k) == s0.entry(i, k));
            let jw = choose|j: int|
                i < j < nt && #[trigger] s0.addrs@[j] == entry_target(s0.entry(i, k))
                    && s0.levels@[j] == s0.levels@[i] - 1;
            assert(s1.addrs@[jw] == s0.addrs@[jw]);
        }
    }
    assert(s1.wf_inject()) by {
        assert forall|i1: int, k1: int, i2: int, k2: int|
            {
                &&& 0 <= i1 < nt && 0 <= k1 < 512
                &&& 0 <= i2 < nt && 0 <= k2 < 512
                &&& entry_valid(#[trigger] s1.entry(i1, k1)) && !entry_leaf(s1.entry(i1, k1))
                &&& entry_valid(#[trigger] s1.entry(i2, k2)) && !entry_leaf(s1.entry(i2, k2))
                &&& (i1 != i2 || k1 != k2)
            } implies entry_target(s1.entry(i1, k1)) != entry_target(s1.entry(i2, k2)) by {
            assert(s1.entry(i1, k1) == s0.entry(i1, k1));
            assert(s1.entry(i2, k2) == s0.entry(i2, k2));
        }
    }
    assert(s1.wf());
    // The walk for virt: same tables, new leaf.
    lemma_addr_index_of(s0, t1);
    lemma_addr_index_of(s0, t0);
    lemma_addr_index_of(s1, t1);
    lemma_addr_index_of(s1, t0);
    assert(s1.entry(0, vp2) == s0.entry(0, vp2));
    assert(s1.addr_index(s0.addrs@[t1]) == t1);
    assert(s1.entry(t1, vp1) == s0.entry(t1, vp1));
    assert(s1.addr_index(s0.addrs@[t0]) == t0);
    assert(s1.entry(t0, vp0) == le);
    assert(s1.lookup_at(t0, virt, 0) == Some((0nat, pa, f)));
    assert(s1.lookup_at(t1, virt, 1) == Some((0nat, pa, f)));
    assert(s1.translate(virt) == Some((0nat, pa, f)));
    // Every other slot path is untouched.
    assert forall|va: u64| !same_vpns(va, virt) implies s1.translate(va) == s0.translate(va) by {
        lemma_vpn_bounds(va);
        let w2 = vpn(va, 2) as int;
        let w1 = vpn(va, 1) as int;
        let w0 = vpn(va, 0) as int;
        if w2 != vp2 {
            assert(s1.entry(0, w2) == s0.entry(0, w2));
            let e = s0.entry(0, w2);
            if entry_valid(e) && !entry_leaf(e) {
                lemma_child_index(s0, 0, w2);
                let c2 = s0.addr_index(entry_target(e));
                assert(s1.addr_index(entry_target(e)) == c2) by {
                    lemma_addr_index_of(s1, c2);
                }
                assert(c2 != t1);
                assert(s1.entry(c2, w1) == s0.entry(c2, w1));
                let e1 = s0.entry(c2, w1);
                if entry_valid(e1) && !entry_leaf(e1) {
                    lemma_child_index(s0, c2, w1);
                    let c1 = s0.addr_index(entry_target(e1));
                    assert(s1.addr_index(entry_target(e1)) == c1) by {
                        lemma_addr_index_of(s1, c1);
                    }
                    assert(c1 != t0 || w0 != vp0) by {
                        if w0 == vp0 {
                            assert(c2 != t1 || w1 != vp1);
                        }
                    }
                    assert(s1.entry(c1, w0) == s0.entry(c1, w0));
                    assert(s1.lookup_at(c1, va, 0) == s0.lookup_at(c1, va, 0));
                    assert(s1.lookup_at(c2, va, 1) == s0.lookup_at(c2, va, 1));
                }
                assert(s1.translate(va) == s0.translate(va));
            } else {
                assert(s1.translate(va) == s0.translate(va));
            }
        } else if w1 != vp1 {
            assert(s1.entry(0, w2) == s0.entry(0, w2));
            assert(s1.addr_index(s0.addrs@[t1]) == t1 && s0.addr_index(s0.addrs@[t1]) == t1);
            assert(s1.entry(t1, w1) == s0.entry(t1, w1));
            let e1 = s0.entry(t1, w1);
            if entry_valid(e1) && !entry_leaf(e1) {
                lemma_child_index(s0, t1, w1);
                let c1 = s0.addr_index(entry_target(e1));
                assert(s1.addr_index(entry_target(e1)) == c1) by {
                    lemma_addr_index_of(s1, c1);
                }
                assert(c1 != t0 || w0 != vp0) by {
                    if w0 == vp0 {
                        assert(w1 != vp1);
                    }
                }
                assert(s1.entry(c1, w0) == s0.entry(c1, w0));
                assert(s1.lookup_at(c1, va, 0) == s0.lookup_at(c1, va, 0));
                assert(s1.lookup_at(t1, va, 1) == s0.lookup_at(t1, va, 1));
            }
            assert(s1.translate(va) == s0.translate(va));
        } else {
            assert(w0 != vp0);
            assert(s1.entry(0, w2) == s0.entry(0, w2));
            assert(s1.entry(t1, w1) == s0.entry(t1, w1));
            assert(s1.entry(t0, w0) == s0.entry(t0, w0));
            assert(s1.lookup_at(t0, va, 0) == s0.lookup_at(t0, va, 0));
            assert(s1.lookup_at(t1, va, 1) == s0.lookup_at(t1, va, 1));
            assert(s1.translate(va) == s0.translate(va));
        }
    }
}

impl AddressSpace {
    /// Rewrites the flag bits of the existing 4 KiB leaf for `virt`,
    /// keeping the frame it points at, and returns that frame's physical
    /// address. This is how a page's protection is changed after its
    /// contents are in place: `map_page` deliberately refuses to touch a
    /// mapped page, so the loader's second pass comes through here.
    /// Fails with `NotMapped` when the walk ends in an invalid entry and
    /// with `PathLeaf` when a super-page leaf blocks the walk; on
    /// failure nothing changes.
    #[verifier::rlimit(60)]
    pub fn remap_page(&mut self, virt: u64, flags: u64) -> (r: Result<u64, MapError>)
        requires
            old(self).wf(),
            flags & (READ | WRITE | EXECUTE) != 0,
        ensures
            final(self).wf(),
            final(self).bump == old(self).bump,
            final(self).addrs == old(self).addrs,
            r is Ok <==> (old(self).translate(virt) matches Some((l, _, _)) && l == 0),
            r matches Err(_) ==> *final(self) == *old(self),
            r matches Ok(pa) ==> {
                &&& (old(self).translate(virt) matches Some((l, pa0, _)) && l == 0 && pa0 == pa)
                &&& final(self).translate(virt) == Some(
                    (0nat, pa, (flags | VALID) & USEFUL_FLAGS_MASK),
                )
                &&& forall|va: u64|
                    !same_vpns(va, virt) ==> final(self).translate(va) == old(self).translate(va)
            },
    {
        let ghost s0 = *old(self);
        proof {
            lemma_page_vpns(virt);
            lemma_vpn_bounds(virt);
            lemma_flag_mask(flags);
        }
        let page = virt & !0xfff;
        let f = (flags | VALID) & USEFUL_FLAGS_MASK;
        let k2 = ((page >> 30) & 0x1ff) as usize;
        let k1 = ((page >> 21) & 0x1ff) as usize;
        let k0 = ((page >> 12) & 0x1ff) as usize;
        proof {
            assert(k2 == vpn(virt, 2) && k1 == vpn(virt, 1) && k0 == vpn(virt, 0));
        }
        let e2 = self.read_entry(0, k2);
        if e2 & VALID == 0 {
            proof {
                assert(s0.translate(virt) is None);
            }
            return Err(MapError::NotMapped);
        }
        if e2 & (READ | WRITE | EXECUTE) != 0 {
            proof {
                assert(s0.translate(virt) matches Some((l, _, _)) && l == 2);
            }
            return Err(MapError::PathLeaf);
        }
        let target2 = (e2 & PTE_PPN_MASK) << 2;
        let t1 = match self.find_table(target2) {
            Some(j) => j,
            None => {
                proof {
                    lemma_child_index(s0, 0, k2 as int);
                    assert(false);
                }
                0
            },
        };
        proof {
            lemma_child_index(s0, 0, k2 as int);
            lemma_addr_index_of(s0, t1 as int);
            assert(s0.addr_index(entry_target(e2)) == t1 as int);
            assert(s0.levels@[t1 as int] == 1);
        }
        let e1 = self.read_entry(t1, k1);
        if e1 & VALID == 0 {
            proof {
                assert(s0.lookup_at(t1 as int, virt, 1) is None);
                assert(s0.translate(virt) is None);
            }
            return Err(MapError::NotMapped);
        }
        if e1 & (READ | WRITE | EXECUTE) != 0 {
            proof {
                assert(s0.lookup_at(t1 as int, virt, 1) matches Some((l, _, _)) && l == 1);
                assert(s0.translate(virt) matches Some((l, _, _)) && l == 1);
            }
            return Err(MapError::PathLeaf);
        }
        let target1 = (e1 & PTE_PPN_MASK) << 2;
        let t0 = match self.find_table(target1) {
            Some(j) => j,
            None => {
                proof {
                    lemma_child_index(s0, t1 as int, k1 as int);
                    assert(false);
                }
                0
            },
        };
        proof {
            lemma_child_index(s0, t1 as int, k1 as int);
            lemma_addr_index_of(s0, t0 as int);
            assert(s0.addr_index(entry_target(e1)) == t0 as int);
            assert(s0.levels@[t0 as int] == 0);
        }
        let e0 = self.read_entry(t0, k0);
        if e0 & VALID == 0 {
            proof {
                assert(s0.lookup_at(t0 as int, virt, 0) is None);
                assert(s0.lookup_at(t1 as int, virt, 1) is None);
                assert(s0.translate(virt) is None);
            }
            return Err(MapError::NotMapped);
        }
        proof {
            assert(entry_leaf(e0));
            assert(s0.lookup_at(t0 as int, virt, 0) == Some(
                (0nat, entry_target(e0), entry_flags(e0)),
            ));
            assert(s0.lookup_at(t1 as int, virt, 1) == s0.lookup_at(t0 as int, virt, 0));
            assert(s0.translate(virt) == s0.lookup_at(t0 as int, virt, 0));
        }
        let pa = (e0 & PTE_PPN_MASK) << 2;
        proof {
            assert(pa % 4096 == 0 && pa < ENTRY_TARGET_LIMIT) by {
                assert(((e0 & 0xff_ffff_ffff_fc00u64) << 2) % 4096 == 0 && ((e0
                    & 0xff_ffff_ffff_fc00u64) << 2) < 0x400_0000_0000_0000) by (bit_vector);
            }
        }
        let le = ((pa >> 2) & PTE_PPN_MASK) | VALID | f;
        self.set_entry(t0, k0, le);
        proof {
            let s1 = *self;
            assert forall|i: int, k: int| 0 <= i < s1.num_tables() && 0 <= k < 512 implies
                #[trigger] s1.entry(i, k) == (if i == t0 as int && k == vpn(virt, 0) {
                    leaf_entry_of(pa, f)
                } else {
                    s0.entry(i, k)
                }) by {
                if i != t0 as int || k != vpn(virt, 0) {
                    lemma_slot_distinct(i, k, t0 as int, vpn(virt, 0) as int);
                }
            }
            assert(entry_target(e0) == pa);
            remap_page_proof(s0, s1, virt, f, t1 as int, t0 as int, pa);
        }
        Ok(pa)
    }
}


/// A 4 KiB mapping never needs more inner tables than there are levels
/// below its starting point.
proof fn lemma_missing_bound(s: AddressSpace, ti: int, va: u64, level: nat)
    ensures
        s.missing_tables(ti, va, level) <= level,
    decreases level,
{
    if level > 0 {
        let e = s.entry(ti, vpn(va, level) as int);
        if entry_valid(e) && !entry_leaf(e) {
            lemma_missing_bound(s, s.addr_index(entry_target(e)), va, (level - 1) as nat);
        }
    }
}

/// The walk reads nothing of an address but its three virtual page
/// numbers: two addresses with the same slot path translate alike.
pub proof fn lemma_lookup_vpns(s: AddressSpace, ti: int, a: u64, b: u64, level: nat)
    requires
        same_vpns(a, b),
        level <= 2,
    ensures
        s.lookup_at(ti, a, level) == s.lookup_at(ti, b, level),
    decreases level,
{
    let e = s.entry(ti, vpn(a, level) as int);
    if entry_valid(e) && !entry_leaf(e) && level > 0 {
        lemma_lookup_vpns(s, s.addr_index(entry_target(e)), a, b, (level - 1) as nat);
    }
}

/// A walk that starts below the root never reads the root: children sit
/// strictly later in the arena than their parents, so table 0 is
/// unreachable from table 1 onwards. Two states that agree on every
/// non-root table therefore walk alike from any non-root table.
proof fn lemma_lookup_nonroot(s0: AddressSpace, s1: AddressSpace, j: int, va: u64, level: nat)
    requires
        s0.wf(),
        s1.addrs == s0.addrs,
        s1.levels == s0.levels,
        s1.entries@.len() == s0.entries@.len(),
        forall|i: int, k: int|
            1 <= i < s0.num_tables() && 0 <= k < 512 ==> #[trigger] s1.entry(i, k) == s0.entry(
                i,
                k,
            ),
        1 <= j < s0.num_tables(),
        s0.levels@[j] == level,
    ensures
        s1.lookup_at(j, va, level) == s0.lookup_at(j, va, level),
    decreases level,
{
    lemma_vpn_bounds(va);
    let e = s0.entry(j, vpn(va, level) as int);
    assert(s1.entry(j, vpn(va, level) as int) == e);
    if entry_valid(e) && !entry_leaf(e) {
        lemma_child_index(s0, j, vpn(va, level) as int);
        let c = s0.addr_index(entry_target(e));
        assert(s1.addrs@[c] == s0.addrs@[c]);
        assert(s1.addr_index(entry_target(e)) == c) by {
            let x = s1.addr_index(entry_target(e));
            assert(exists|y: int| 0 <= y < s1.num_tables() && s1.addrs@[y] == entry_target(e)) by {
                assert(s1.addrs@[c] == entry_target(e));
            }
            if x != c {
                if x < c {
                    assert(s0.addrs@[x] != s0.addrs@[c]);
                } else {
                    assert(s0.addrs@[c] != s0.addrs@[x]);
                }
            }
        }
        lemma_lookup_nonroot(s0, s1, c, va, (level - 1) as nat);
    }
}

impl AddressSpace {
    /// Maps `n` consecutive 4 KiB pages starting at `base`, each to a
    /// fresh frame carrying `flags`, stopping at the first page that
    /// cannot be mapped. On success every page of the range translates
    /// to a level-0 leaf with the requested flags; addresses outside the
    /// range (by slot path) always translate exactly as before.
    pub fn map_range(&mut self, base: u64, n: u64, flags: u64) -> (r: Result<(), MapError>)
        requires
            old(self).wf(),
            flags & (READ | WRITE | EXECUTE) != 0,
            base + 4096 * n <= u64::MAX,
        ensures
            final(self).wf(),
            final(self).bump.base == old(self).bump.base,
            final(self).bump.len == old(self).bump.len,
            r is Ok ==> forall|i: int|
                0 <= i < n ==> (#[trigger] final(self).translate((base + 4096 * i) as u64) matches
                Some((l, _, fl)) && l == 0 && fl == (flags | VALID) & USEFUL_FLAGS_MASK),
            r is Ok ==> forall|i: int|
                0 <= i < n ==> #[trigger] old(self).translate((base + 4096 * i) as u64) is None,
            r is Ok ==> forall|i: int, j: int|
                0 <= i < j < n ==> !(#[trigger] same_vpns(
                    (base + 4096 * i) as u64,
                    (base + 4096 * j) as u64,
                )),
            forall|va: u64|
                (forall|i: int| 0 <= i < n ==> !(#[trigger] same_vpns(va, (base + 4096 * i) as u64)))
                    ==> final(self).translate(va) == old(self).translate(va),
            r matches Err(e) ==> (match e {
                MapError::AlreadyMapped => exists|i: int|
                    0 <= i < n && #[trigger] final(self).translate((base + 4096 * i) as u64)
                        is Some,
                MapError::PathLeaf => exists|i: int|
                    0 <= i < n && !(#[trigger] final(self).path_ok(0, (base + 4096 * i) as u64, 2)),
                MapError::OutOfMemory => final(self).bump.pos + 4096 * 3 > final(self).bump.len,
                MapError::NotMapped => false,
            }),
    {
        let ghost s0 = *old(self);
        let ghost f = (flags | VALID) & USEFUL_FLAGS_MASK;
        let mut i: u64 = 0;
        while i < n
            invariant
                s0 == *old(self),
                self.wf(),
                self.bump.base == s0.bump.base,
                self.bump.len == s0.bump.len,
                i <= n,
                flags & (READ | WRITE | EXECUTE) != 0,
                base + 4096 * n <= u64::MAX,
                f == (flags | VALID) & USEFUL_FLAGS_MASK,
                forall|j: int|
                    0 <= j < i ==> (#[trigger] self.translate((base + 4096 * j) as u64) matches
                    Some((l, _, fl)) && l == 0 && fl == f),
                forall|j: int|
                    0 <= j < i ==> #[trigger] s0.translate((base + 4096 * j) as u64) is None,
                forall|j1: int, j2: int|
                    0 <= j1 < j2 < i ==> !(#[trigger] same_vpns(
                        (base + 4096 * j1) as u64,
                        (base + 4096 * j2) as u64,
                    )),
                forall|va: u64|
                    (forall|j: int| 0 <= j < i ==> !(#[trigger] same_vpns(va, (base + 4096 * j) as u64)))
                        ==> self.translate(va) == s0.translate(va),
            decreases n - i,
        {
            let virt = base + i * 4096;
            let ghost s_pre = *self;
            match self.map_page(virt, flags) {
                Ok(_) => {},
                Err(e) => {
                    proof {
                        assert(*self == s_pre);
                        if e == MapError::AlreadyMapped {
                            assert(exists|x: int|
                                0 <= x < n && #[trigger] self.translate(
                                    (base + 4096 * x) as u64,
                                ) is Some) by {
                                assert(self.translate((base + 4096 * (i as int)) as u64) is Some);
                            }
                        }
                        if e == MapError::PathLeaf {
                            assert(exists|x: int|
                                0 <= x < n && !(#[trigger] self.path_ok(
                                    0,
                                    (base + 4096 * x) as u64,
                                    2,
                                ))) by {
                                assert(!self.path_ok(0, (base + 4096 * (i as int)) as u64, 2));
                            }
                        }
                        if e == MapError::OutOfMemory {
                            lemma_missing_bound(s_pre, 0, virt, 2);
                        }
                    }
                    return Err(e);
                },
            }
            proof {
                assert forall|j: int| 0 <= j < i implies !(#[trigger] same_vpns(
                    virt,
                    (base + 4096 * j) as u64,
                )) by {
                    let pj = (base + 4096 * j) as u64;
                    if same_vpns(virt, pj) {
                        lemma_lookup_vpns(s_pre, 0, virt, pj, 2);
                        assert(s_pre.translate(pj) is Some);
                        assert(s_pre.translate(virt) is None);
                        assert(false);
                    }
                }
                assert(s0.translate((base + 4096 * (i as int)) as u64) is None) by {
                    assert(forall|j: int|
                        0 <= j < i ==> !(#[trigger] same_vpns(virt, (base + 4096 * j) as u64)));
                    assert(s_pre.translate(virt) == s0.translate(virt));
                    assert(s_pre.translate(virt) is None);
                }
                assert forall|j1: int, j2: int| 0 <= j1 < j2 < i + 1 implies !(#[trigger] same_vpns(
                    (base + 4096 * j1) as u64,
                    (base + 4096 * j2) as u64,
                )) by {
                    if j2 == i as int {
                        assert(!same_vpns(virt, (base + 4096 * j1) as u64));
                    }
                }
                assert forall|j: int|
                    0 <= j < i + 1 implies (#[trigger] self.translate((base + 4096 * j) as u64)
                    matches Some((l, _, fl)) && l == 0 && fl == f) by {
                    let pj = (base + 4096 * j) as u64;
                    if j < i {
                        if same_vpns(pj, virt) {
                            lemma_lookup_vpns(s_pre, 0, pj, virt, 2);
                            assert(false);
                        }
                        assert(self.translate(pj) == s_pre.translate(pj));
                    } else {
                        lemma_lookup_vpns(*self, 0, pj, virt, 2);
                    }
                }
                assert forall|va: u64|
                    (forall|j: int| 0 <= j < i + 1 ==> !(#[trigger] same_vpns(va, (base + 4096 * j) as u64)))
                        implies self.translate(va) == s0.translate(va) by {
                    assert(!same_vpns(va, (base + 4096 * (i as int)) as u64));
                    assert(same_vpns(virt, (base + 4096 * (i as int)) as u64));
                    if same_vpns(va, virt) {
                        assert(false);
                    }
                    assert(self.translate(va) == s_pre.translate(va));
                }
            }
            i = i + 1;
        }
        Ok(())
    }

    /// Rewrites the flags of `n` already-mapped consecutive 4 KiB pages
    /// starting at `base`, keeping each page's frame: the loader's
    /// second pass, which gives segment pages their final protection
    /// after their contents are in place. The pages must sit in
    /// distinct slots (which `map_range` guarantees for any range it
    /// mapped). Succeeds exactly when every page of the range is a
    /// 4 KiB mapping; addresses outside the range always translate
    /// exactly as before.
    pub fn remap_range(&mut self, base: u64, n: u64, flags: u64) -> (r: Result<(), MapError>)
        requires
            old(self).wf(),
            flags & (READ | WRITE | EXECUTE) != 0,
            base + 4096 * n <= u64::MAX,
            forall|i: int, j: int|
                0 <= i < j < n ==> !(#[trigger] same_vpns(
                    (base + 4096 * i) as u64,
                    (base + 4096 * j) as u64,
                )),
        ensures
            final(self).wf(),
            final(self).bump == old(self).bump,
            final(self).addrs == old(self).addrs,
            r is Ok <==> (forall|i: int|
                0 <= i < n ==> (#[trigger] old(self).translate((base + 4096 * i) as u64) matches
                Some((l, _, _)) && l == 0)),
            r is Ok ==> forall|i: int|
                0 <= i < n ==> (#[trigger] final(self).translate((base + 4096 * i) as u64) matches
                Some((l, pa, fl)) && l == 0 && fl == (flags | VALID) & USEFUL_FLAGS_MASK && (old(
                    self,
                ).translate((base + 4096 * i) as u64) matches Some((l0, pa0, _)) && pa0 == pa)),
            forall|va: u64|
                (forall|i: int| 0 <= i < n ==> !(#[trigger] same_vpns(va, (base + 4096 * i) as u64)))
                    ==> final(self).translate(va) == old(self).translate(va),
    {
        let ghost s0 = *old(self);
        let ghost f = (flags | VALID) & USEFUL_FLAGS_MASK;
        let mut i: u64 = 0;
        while i < n
            invariant
                s0 == *old(self),
                self.wf(),
                self.bump == s0.bump,
                self.addrs == s0.addrs,
                i <= n,
                flags & (READ | WRITE | EXECUTE) != 0,
                base + 4096 * n <= u64::MAX,
                f == (flags | VALID) & USEFUL_FLAGS_MASK,
                forall|j1: int, j2: int|
                    0 <= j1 < j2 < n ==> !(#[trigger] same_vpns(
                        (base + 4096 * j1) as u64,
                        (base + 4096 * j2) as u64,
                    )),
                forall|j: int|
                    0 <= j < i ==> (#[trigger] s0.translate((base + 4096 * j) as u64) matches Some(
                        (l, _, _),
                    ) && l == 0),
                forall|j: int|
                    0 <= j < i ==> (#[trigger] self.translate((base + 4096 * j) as u64) matches
                    Some((l, pa, fl)) && l == 0 && fl == f && (s0.translate(
                        (base + 4096 * j) as u64,
                    ) matches Some((l0, pa0, _)) && pa0 == pa)),
                forall|va: u64|
                    (forall|j: int| 0 <= j < i ==> !(#[trigger] same_vpns(va, (base + 4096 * j) as u64)))
                        ==> self.translate(va) == s0.translate(va),
            decreases n - i,
        {
            let virt = base + i * 4096;
            let ghost s_pre = *self;
            proof {
                assert forall|j: int| 0 <= j < i implies !(#[trigger] same_vpns(
                    virt,
                    (base + 4096 * j) as u64,
                )) by {
                    assert(!same_vpns((base + 4096 * j) as u64, (base + 4096 * (i as int)) as u64));
                }
                assert(s_pre.translate(virt) == s0.translate(virt));
            }
            match self.remap_page(virt, flags) {
                Ok(_) => {},
                Err(_) => {
                    proof {
                        assert(!(s0.translate((base + 4096 * (i as int)) as u64) matches Some(
                            (l, _, _),
                        ) && l == 0));
                    }
                    return Err(MapError::NotMapped);
                },
            }
            proof {
                assert(s0.translate((base + 4096 * (i as int)) as u64) matches Some((l, _, _))
                    && l == 0);
                assert forall|j: int|
                    0 <= j < i + 1 implies (#[trigger] self.translate((base + 4096 * j) as u64)
                    matches Some((l, pa, fl)) && l == 0 && fl == f && (s0.translate(
                        (base + 4096 * j) as u64,
                    ) matches Some((l0, pa0, _)) && pa0 == pa)) by {
                    let pj = (base + 4096 * j) as u64;
                    if j < i {
                        assert(!same_vpns(pj, virt)) by {
                            assert(!same_vpns(
                                (base + 4096 * j) as u64,
                                (base + 4096 * (i as int)) as u64,
                            ));
                        }
                        assert(self.translate(pj) == s_pre.translate(pj));
                    }
                }
                assert forall|va: u64|
                    (forall|j: int| 0 <= j < i + 1 ==> !(#[trigger] same_vpns(va, (base + 4096 * j) as u64)))
                        implies self.translate(va) == s0.translate(va) by {
                    assert(!same_vpns(va, (base + 4096 * (i as int)) as u64));
                    if same_vpns(va, virt) {
                        assert(false);
                    }
                    assert(self.translate(va) == s_pre.translate(va));
                }
            }
            i = i + 1;
        }
        Ok(())
    }

    /// Populates the root with the kernel's higher-half map: root slots
    /// 1..511 become global R/W/X gigapage leaves (slot `i` maps the
    /// `i`-th GiB of physical memory, slot 511 maps the zeroth GiB for
    /// MMIO), and slot 0 — the userspace gigabyte — is left exactly as
    /// it was, so every userspace translation is unchanged.
    pub fn map_higher_half(&mut self)
        requires
            old(self).wf(),
        ensures
            final(self).wf(),
            final(self).bump == old(self).bump,
            final(self).addrs == old(self).addrs,
            final(self).entry(0, 0) == old(self).entry(0, 0),
            forall|k: int| 1 <= k < 512 ==> final(self).entry(0, k) == higher_half_entry(k),
            forall|va: u64| vpn(va, 2) == 0 ==> final(self).translate(va) == old(self).translate(va),
            forall|va: u64|
                vpn(va, 2) != 0 ==> final(self).translate(va) == Some(
                    (
                        2nat,
                        entry_target(higher_half_entry(vpn(va, 2) as int)),
                        entry_flags(higher_half_entry(vpn(va, 2) as int)),
                    ),
                ),
    {
        let ghost s0 = *old(self);
        let mut k: usize = 1;
        while k < 512
            invariant
                1 <= k <= 512,
                self.addrs == s0.addrs,
                self.levels == s0.levels,
                self.bump == s0.bump,
                self.entries@.len() == s0.entries@.len(),
                s0.wf(),
                forall|x: int| 1 <= x < k ==> #[trigger] self.entry(0, x) == higher_half_entry(x),
                forall|i: int, x: int|
                    0 <= i < s0.num_tables() && 0 <= x < 512 && (i != 0 || x >= k || x == 0)
                        ==> #[trigger] self.entry(i, x) == s0.entry(i, x),
            decreases 512 - k,
        {
            proof {
                assert(512 * 0 + k < self.entries@.len());
            }
            let e: u64 = if k == 511 {
                READ | WRITE | EXECUTE | GLOBAL | VALID
            } else {
                ((k as u64) << 28) | READ | WRITE | EXECUTE | GLOBAL | VALID
            };
            let ghost before = *self;
            self.set_entry(0, k, e);
            proof {
                assert forall|i: int, x: int|
                    0 <= i < s0.num_tables() && 0 <= x < 512 && (i != 0 || x != k) implies
                    #[trigger] self.entry(i, x) == before.entry(i, x) by {
                    lemma_slot_distinct(i, x, 0, k as int);
                }
                assert(self.entry(0, k as int) == higher_half_entry(k as int));
            }
            k = k + 1;
        }
        proof {
            let s1 = *self;
            // Well-formedness: slots 1..511 of the root are now leaves,
            // slot 0 and every other table are untouched.
            assert forall|i: int, x: int|
                0 <= i < s1.num_tables() && 0 <= x < 512 && (i != 0 || x == 0) implies
                #[trigger] s1.entry(i, x) == s0.entry(i, x) by {}
            assert forall|x: int| 1 <= x < 512 implies entry_leaf(#[trigger] s1.entry(0, x))
                && entry_valid(s1.entry(0, x)) by {
                lemma_higher_half_shape(x as u64);
            }
            assert(s1.wf_entries()) by {
                assert forall|i: int, x: int|
                    0 <= i < s1.num_tables() && 0 <= x < 512 && entry_valid(
                        #[trigger] s1.entry(i, x),
                    ) && !entry_leaf(s1.entry(i, x)) implies {
                    &&& s1.levels@[i] >= 1
                    &&& exists|j: int|
                        i < j < s1.num_tables() && #[trigger] s1.addrs@[j] == entry_target(
                            s1.entry(i, x),
                        ) && s1.levels@[j] == s1.levels@[i] - 1
                } by {
                    assert(i != 0 || x == 0);
                    assert(s1.entry(i, x) == s0.entry(i, x));
                    let jw = choose|j: int|
                        i < j < s0.num_tables() && #[trigger] s0.addrs@[j] == entry_target(
                            s0.entry(i, x),
                        ) && s0.levels@[j] == s0.levels@[i] - 1;
                    assert(s1.addrs@[jw] == s0.addrs@[jw]);
                }
                assert forall|i: int, x: int|
                    0 <= i < s1.num_tables() && 0 <= x < 512 && s1.levels@[i] == 0 && entry_valid(
                        #[trigger] s1.entry(i, x),
                    ) implies entry_leaf(s1.entry(i, x)) by {
                    assert(i != 0);
                    assert(s1.entry(i, x) == s0.entry(i, x));
                }
            }
            assert(s1.wf_inject()) by {
                assert forall|i1: int, x1: int, i2: int, x2: int|
                    {
                        &&& 0 <= i1 < s1.num_tables() && 0 <= x1 < 512
                        &&& 0 <= i2 < s1.num_tables() && 0 <= x2 < 512
                        &&& entry_valid(#[trigger] s1.entry(i1, x1)) && !entry_leaf(
                            s1.entry(i1, x1),
                        )
                        &&& entry_valid(#[trigger] s1.entry(i2, x2)) && !entry_leaf(
                            s1.entry(i2, x2),
                        )
                        &&& (i1 != i2 || x1 != x2)
                    } implies entry_target(s1.entry(i1, x1)) != entry_target(s1.entry(i2, x2)) by {
                    assert(i1 != 0 || x1 == 0);
                    assert(i2 != 0 || x2 == 0);
                    assert(s1.entry(i1, x1) == s0.entry(i1, x1));
                    assert(s1.entry(i2, x2) == s0.entry(i2, x2));
                }
            }
            assert(s1.wf());
            // Userspace translations are untouched.
            assert forall|va: u64| vpn(va, 2) == 0 implies s1.translate(va) == s0.translate(va) by {
                lemma_vpn_bounds(va);
                assert(s1.entry(0, 0) == s0.entry(0, 0));
                let e = s0.entry(0, vpn(va, 2) as int);
                if entry_valid(e) && !entry_leaf(e) {
                    lemma_child_index(s0, 0, 0);
                    let c = s0.addr_index(entry_target(e));
                    assert(s1.addr_index(entry_target(e)) == c) by {
                        let y = s1.addr_index(entry_target(e));
                        assert(exists|z: int|
                            0 <= z < s1.num_tables() && s1.addrs@[z] == entry_target(e)) by {
                            assert(s1.addrs@[c] == entry_target(e));
                        }
                        if y != c {
                            if y < c {
                                assert(s0.addrs@[y] != s0.addrs@[c]);
                            } else {
                                assert(s0.addrs@[c] != s0.addrs@[y]);
                            }
                        }
                    }
                    lemma_lookup_nonroot(s0, s1, c, va, 1);
                }
            }
            // The higher half maps every other gigabyte slot as a leaf.
            assert forall|va: u64| vpn(va, 2) != 0 implies s1.translate(va) == Some(
                (
                    2nat,
                    entry_target(higher_half_entry(vpn(va, 2) as int)),
                    entry_flags(higher_half_entry(vpn(va, 2) as int)),
                ),
            ) by {
                lemma_vpn_bounds(va);
                lemma_higher_half_shape(vpn(va, 2));
                assert(s1.entry(0, vpn(va, 2) as int) == higher_half_entry(vpn(va, 2) as int));
            }
        }
    }
}


impl AddressSpace {
    /// The executable counterpart of `translate`: walks the tree for
    /// `va` and returns the level, target physical address and flag
    /// field of the leaf the hardware would stop at, or `None` where
    /// translation faults.
    pub fn walk_page(&self, va: u64) -> (r: Option<(usize, u64, u64)>)
        requires
            self.wf(),
        ensures
            r is None <==> self.translate(va) is None,
            r matches Some((l, pa, fl)) ==> self.translate(va) == Some((l as nat, pa, fl)),
    {
        let ghost s = *self;
        proof {
            lemma_vpn_bounds(va);
        }
        let k2 = ((va >> 30) & 0x1ff) as usize;
        let k1 = ((va >> 21) & 0x1ff) as usize;
        let k0 = ((va >> 12) & 0x1ff) as usize;
        let e2 = self.read_entry(0, k2);
        if e2 & VALID == 0 {
            return None;
        }
        if e2 & (READ | WRITE | EXECUTE) != 0 {
            return Some((2, (e2 & PTE_PPN_MASK) << 2, e2 & 0x3ff));
        }
        let t1 = match self.find_table((e2 & PTE_PPN_MASK) << 2) {
            Some(j) => j,
            None => {
                proof {
                    lemma_child_index(s, 0, k2 as int);
                    assert(false);
                }
                0
            },
        };
        proof {
            lemma_child_index(s, 0, k2 as int);
            lemma_addr_index_of(s, t1 as int);
            assert(s.addr_index(entry_target(e2)) == t1 as int);
        }
        let e1 = self.read_entry(t1, k1);
        if e1 & VALID == 0 {
            proof {
                assert(s.lookup_at(t1 as int, va, 1) is None);
            }
            return None;
        }
        if e1 & (READ | WRITE | EXECUTE) != 0 {
            proof {
                assert(s.lookup_at(t1 as int, va, 1) == Some(
                    (1nat, entry_target(e1), entry_flags(e1)),
                ));
            }
            return Some((1, (e1 & PTE_PPN_MASK) << 2, e1 & 0x3ff));
        }
        let t0 = match self.find_table((e1 & PTE_PPN_MASK) << 2) {
            Some(j) => j,
            None => {
                proof {
                    lemma_child_index(s, t1 as int, k1 as int);
                    assert(false);
                }
                0
            },
        };
        proof {
            lemma_child_index(s, t1 as int, k1 as int);
            lemma_addr_index_of(s, t0 as int);
            assert(s.addr_index(entry_target(e1)) == t0 as int);
        }
        let e0 = self.read_entry(t0, k0);
        if e0 & VALID == 0 {
            proof {
                assert(s.lookup_at(t0 as int, va, 0) is None);
                assert(s.lookup_at(t1 as int, va, 1) is None);
            }
            return None;
        }
        proof {
            assert(entry_leaf(e0));
            assert(s.lookup_at(t0 as int, va, 0) == Some(
                (0nat, entry_target(e0), entry_flags(e0)),
            ));
            assert(s.lookup_at(t1 as int, va, 1) == s.lookup_at(t0 as int, va, 0));
        }
        Some((0, (e0 & PTE_PPN_MASK) << 2, e0 & 0x3ff))
    }
}

} // verus!
