//! Per-process virtual address space: a three-level radix-trie page table.
//!
//! The trie is held in arenas of fixed-width nodes, one arena per level, and
//! data pages live in a fourth arena; a page-table entry encodes the handle of
//! the node or page it refers to exactly as the hardware format does (handle in
//! the upper bits, permission and status bits in the lower ten).  Address
//! translation is the three-step walk over those arenas, and the byte contents
//! of mapped memory are the model against which the loader and the syscall
//! layer are specified.

use vstd::prelude::*;

verus! {

pub const PAGE_SIZE: u64 = 4096;

/// Bytes spanned by one entry of a level-1 node (2 MiB).
pub const L1_SPAN: u64 = 0x20_0000;

/// Bytes spanned by one entry of the root node (1 GiB).
pub const L2_SPAN: u64 = 0x4000_0000;

/// One past the highest virtual address the three 9-bit levels can translate.
pub const VA_LIMIT: u64 = 0x80_0000_0000;

/// Leaf entry bits: dirty, accessed, global, user, execute, write, read, valid.
pub const LEAF_FLAGS: u64 = 0xef;

/// Intermediate entry bits: global and valid only.
pub const PTR_FLAGS: u64 = 0x21;

/// More physical pages than any boot will touch; entry encodings of handles
/// below this bound never overflow.
pub const ARENA_CAP: u64 = 0x1_0000_0000;

/// Index into the root node: bits 30..39 of a virtual address.
pub open spec fn vpn2(va: u64) -> int {
    ((va as int) / 0x4000_0000) % 512
}

/// Index into a level-1 node: bits 21..30 of a virtual address.
pub open spec fn vpn1(va: u64) -> int {
    ((va as int) / 0x20_0000) % 512
}

/// Index into a level-0 node: bits 12..21 of a virtual address.
pub open spec fn vpn0(va: u64) -> int {
    ((va as int) / 4096) % 512
}

/// An entry with its valid bit set.
pub open spec fn valid_e(e: u64) -> bool {
    e % 2 == 1
}

/// A valid entry that maps a page: at least one of read/write/execute is set.
pub open spec fn leaf_e(e: u64) -> bool {
    valid_e(e) && (e / 2) % 8 != 0
}

/// A valid entry that points at a next-level node.
pub open spec fn ptr_e(e: u64) -> bool {
    valid_e(e) && (e / 2) % 8 == 0
}

/// The handle held in an entry's upper bits.
pub open spec fn tgt(e: u64) -> int {
    (e as int) / 1024
}

/// The entry that maps the page at physical address `pa` (`pa >> 2`, or-ed
/// with the leaf bits; `pa` must be page-aligned).
pub open spec fn leaf_pte(pa: u64) -> int {
    (pa as int) / 4 + LEAF_FLAGS
}

/// The entry that points at the node with handle `h`.
pub open spec fn ptr_pte(h: int) -> int {
    h * 1024 + PTR_FLAGS
}

pub struct AddressSpace {
    /// Root (level-2) node: empty until the first mapping, then 512 entries.
    root: Vec<u64>,
    /// Arena of level-1 nodes, 512 entries each.
    l1: Vec<Vec<u64>>,
    /// Arena of level-0 nodes, 512 entries each.
    l0: Vec<Vec<u64>>,
    /// Arena of data pages, `PAGE_SIZE` bytes each.
    pages: Vec<Vec<u8>>,
    /// Whether this address space has been installed as the current one.
    active: bool,
    /// Current heap end.
    brk: u64,
    /// Lowest address `brk` may take.
    brk_min: u64,
    /// One past the mapped heap; page-aligned, never decreases.
    brk_max: u64,
}

impl AddressSpace {
    /// Structural invariant: node and page sizes, entry targets in bounds,
    /// distinct entries never share a target node or page, and the heap
    /// bounds are ordered with a page-aligned ceiling.
    pub closed spec fn wf(self) -> bool {
        &&& self.root@.len() == 0 || self.root@.len() == 512
        &&& forall|i: int| 0 <= i < self.l1@.len() ==> (#[trigger] self.l1@[i])@.len() == 512
        &&& forall|i: int| 0 <= i < self.l0@.len() ==> (#[trigger] self.l0@[i])@.len() == 512
        &&& forall|i: int|
            0 <= i < self.pages@.len() ==> (#[trigger] self.pages@[i])@.len() == PAGE_SIZE
        &&& forall|k: int|
            0 <= k < self.root@.len() && ptr_e(#[trigger] self.root@[k]) ==> tgt(
                self.root@[k],
            ) < self.l1@.len()
        &&& forall|k1: int, k2: int|
            0 <= k1 < self.root@.len() && 0 <= k2 < self.root@.len() && k1 != k2 && ptr_e(
                #[trigger] self.root@[k1],
            ) && ptr_e(#[trigger] self.root@[k2]) ==> tgt(self.root@[k1]) != tgt(self.root@[k2])
        &&& forall|i: int, k: int|
            0 <= i < self.l1@.len() && 0 <= k < 512 && ptr_e(#[trigger] self.l1@[i]@[k]) ==> tgt(
                self.l1@[i]@[k],
            ) < self.l0@.len()
        &&& forall|i1: int, k1: int, i2: int, k2: int|
            0 <= i1 < self.l1@.len() && 0 <= k1 < 512 && 0 <= i2 < self.l1@.len() && 0 <= k2 < 512
                && (i1 != i2 || k1 != k2) && ptr_e(#[trigger] self.l1@[i1]@[k1]) && ptr_e(
                #[trigger] self.l1@[i2]@[k2],
            ) ==> tgt(self.l1@[i1]@[k1]) != tgt(self.l1@[i2]@[k2])
        &&& forall|i: int, k: int|
            0 <= i < self.l0@.len() && 0 <= k < 512 && valid_e(#[trigger] self.l0@[i]@[k])
                ==> leaf_e(self.l0@[i]@[k]) && tgt(self.l0@[i]@[k]) < self.pages@.len()
        &&& forall|i1: int, k1: int, i2: int, k2: int|
            0 <= i1 < self.l0@.len() && 0 <= k1 < 512 && 0 <= i2 < self.l0@.len() && 0 <= k2 < 512
                && (i1 != i2 || k1 != k2) && valid_e(#[trigger] self.l0@[i1]@[k1]) && valid_e(
                #[trigger] self.l0@[i2]@[k2],
            ) ==> tgt(self.l0@[i1]@[k1]) != tgt(self.l0@[i2]@[k2])
        &&& self.brk_min <= self.brk <= self.brk_max
        &&& self.brk_max % PAGE_SIZE == 0
    }

    /// No mapping has been installed yet.
    pub closed spec fn fresh(self) -> bool {
        &&& self.root@.len() == 0
        &&& self.l1@.len() == 0
        &&& self.l0@.len() == 0
        &&& self.pages@.len() == 0
        &&& !self.active
        &&& self.brk == 0
        &&& self.brk_min == 0
        &&& self.brk_max == 0
    }

    /// The heap bounds hold `lo <= end <= hi`.
    pub open spec fn heap_is(self, lo: u64, end: u64, hi: u64) -> bool {
        self.heap_min() == lo && self.heap_end() == end && self.heap_max() == hi
    }

    pub closed spec fn is_active(self) -> bool {
        self.active
    }

    /// Current heap end.
    pub closed spec fn heap_end(self) -> u64 {
        self.brk
    }

    /// Lowest address the heap end may take.
    pub closed spec fn heap_min(self) -> u64 {
        self.brk_min
    }

    /// One past the mapped heap region; page-aligned.
    pub closed spec fn heap_max(self) -> u64 {
        self.brk_max
    }

    /// The data-page handle the walk for `va` reaches, if `va` is mapped down
    /// to a 4 KiB page.
    pub closed spec fn l0_entry(self, va: u64) -> Option<int> {
        if self.root@.len() != 512 {
            None
        } else {
            let e2 = self.root@[vpn2(va)];
            if !ptr_e(e2) {
                None
            } else {
                let e1 = self.l1@[tgt(e2)]@[vpn1(va)];
                if !ptr_e(e1) {
                    None
                } else {
                    let e0 = self.l0@[tgt(e1)]@[vpn0(va)];
                    if !leaf_e(e0) {
                        None
                    } else {
                        Some(tgt(e0))
                    }
                }
            }
        }
    }

    /// `va` is mapped to a 4 KiB data page.
    pub open spec fn mapped(self, va: u64) -> bool {
        self.l0_entry(va) is Some
    }

    /// The byte the running process sees at `va`.
    pub closed spec fn mem(self, va: u64) -> u8 {
        self.pages@[self.l0_entry(va)->Some_0]@[(va as int) % 4096]
    }

    /// The superpage leaf, if any, that translation of `va` stops at above
    /// level 0: the physical base address of the leaf and its level.
    pub closed spec fn superpage_at(self, va: u64) -> Option<(int, int)> {
        if self.root@.len() != 512 {
            None
        } else {
            let e2 = self.root@[vpn2(va)];
            if leaf_e(e2) {
                Some((tgt(e2) * 4096, 2))
            } else if !ptr_e(e2) {
                None
            } else {
                let e1 = self.l1@[tgt(e2)]@[vpn1(va)];
                if leaf_e(e1) {
                    Some((tgt(e1) * 4096, 1))
                } else {
                    None
                }
            }
        }
    }

    /// Translation of `va` does not run into a superpage leaf, so a 4 KiB
    /// mapping for `va` can still be installed.
    pub open spec fn path_clear(self, va: u64) -> bool {
        self.superpage_at(va) is None
    }

    /// Every page of `[va, va + len)` can take a 4 KiB mapping.
    pub open spec fn range_clear(self, va: u64, len: u64) -> bool {
        forall|x: u64| va <= x < va + len ==> self.path_clear(x)
    }

    /// How many physical pages (nodes and data pages) this space holds.  The
    /// backing allocator is finite, so mapping operations ask for headroom
    /// against `ARENA_CAP` before they allocate.
    pub closed spec fn alloc_count(self) -> int {
        self.l1@.len() + self.l0@.len() + self.pages@.len() + 1int
    }

    /// How many data pages the arena holds.
    pub closed spec fn page_count(self) -> int {
        self.pages@.len() as int
    }

    /// No level-0 leaf refers to the data page with handle `h`.
    pub closed spec fn page_unreferenced(self, h: int) -> bool {
        forall|i: int, k: int|
            0 <= i < self.l0@.len() && 0 <= k < 512 && valid_e(#[trigger] self.l0@[i]@[k])
                ==> tgt(self.l0@[i]@[k]) != h
    }

    /// An address space with nothing mapped and a zero heap.
    pub fn new() -> (r: AddressSpace)
        ensures
            r.wf(),
            r.fresh(),
            forall|va: u64| !r.mapped(va),
            forall|va: u64| r.path_clear(va),
            !r.is_active(),
    {
        AddressSpace {
            root: Vec::new(),
            l1: Vec::new(),
            l0: Vec::new(),
            pages: Vec::new(),
            active: false,
            brk: 0,
            brk_min: 0,
            brk_max: 0,
        }
    }

    /// Install this address space as the hardware translation context.  The
    /// model records activation only; mappings and memory are untouched.
    pub fn make_current(&mut self)
        requires
            old(self).wf(),
        ensures
            final(self).is_active(),
            final(self).wf(),
            forall|va: u64| final(self).l0_entry(va) == old(self).l0_entry(va),
            forall|va: u64| final(self).mem(va) == old(self).mem(va),
            forall|va: u64| final(self).superpage_at(va) == old(self).superpage_at(va),
            final(self).alloc_count() == old(self).alloc_count(),
            final(self).heap_end() == old(self).heap_end(),
            final(self).heap_min() == old(self).heap_min(),
            final(self).heap_max() == old(self).heap_max(),
    {
        self.active = true;
    }
}

/// Two addresses that the three-level walk cannot tell apart: they share all
/// three node indices, so they are served by the same 4 KiB page.
pub open spec fn same_page(x: u64, va: u64) -> bool {
    vpn2(x) == vpn2(va) && vpn1(x) == vpn1(va) && vpn0(x) == vpn0(va)
}

/// Below `VA_LIMIT` the three node indices and the page offset pin the
/// address down completely.
pub proof fn lemma_same_page_eq(x: u64, va: u64)
    requires
        x < VA_LIMIT,
        va < VA_LIMIT,
        same_page(x, va),
        x % 4096 == va % 4096,
    ensures
        x == va,
{
    lemma_va_parts(x);
    lemma_va_parts(va);
}

/// Decomposition of an address below `VA_LIMIT` into its walk indices and
/// page offset.
pub proof fn lemma_va_parts(va: u64)
    requires
        va < VA_LIMIT,
    ensures
        va == ((vpn2(va) * 512 + vpn1(va)) * 512 + vpn0(va)) * 4096 + (va as int) % 4096,
        0 <= vpn2(va) < 512,
        0 <= vpn1(va) < 512,
        0 <= vpn0(va) < 512,
{
    let v = va as int;
    let q2 = v / 0x4000_0000;
    let r2 = v % 0x4000_0000;
    vstd::arithmetic::div_mod::lemma_fundamental_div_mod(v, 0x4000_0000);
    assert(q2 < 512) by {
        assert(v < 512 * 0x4000_0000);
    };
    assert(vpn2(va) == q2);
    // v / 0x20_0000 == q2 * 512 + r2 / 0x20_0000
    let q1 = r2 / 0x20_0000;
    let r1 = r2 % 0x20_0000;
    vstd::arithmetic::div_mod::lemma_fundamental_div_mod(r2, 0x20_0000);
    assert(v == (q2 * 512 + q1) * 0x20_0000 + r1);
    vstd::arithmetic::div_mod::lemma_fundamental_div_mod_converse(v, 0x20_0000, q2 * 512 + q1, r1);
    assert(v / 0x20_0000 == q2 * 512 + q1);
    assert(q1 < 512);
    assert((q2 * 512 + q1) % 512 == q1) by {
        vstd::arithmetic::div_mod::lemma_fundamental_div_mod_converse(q2 * 512 + q1, 512, q2, q1);
    };
    assert(vpn1(va) == q1);
    // v / 4096 == (q2 * 512 + q1) * 512 + r1 / 4096
    let q0 = r1 / 4096;
    let r0 = r1 % 4096;
    vstd::arithmetic::div_mod::lemma_fundamental_div_mod(r1, 4096);
    assert(v == ((q2 * 512 + q1) * 512 + q0) * 4096 + r0);
    vstd::arithmetic::div_mod::lemma_fundamental_div_mod_converse(
        v,
        4096,
        (q2 * 512 + q1) * 512 + q0,
        r0,
    );
    assert(v / 4096 == (q2 * 512 + q1) * 512 + q0);
    assert(q0 < 512);
    assert(((q2 * 512 + q1) * 512 + q0) % 512 == q0) by {
        vstd::arithmetic::div_mod::lemma_fundamental_div_mod_converse(
            (q2 * 512 + q1) * 512 + q0,
            512,
            q2 * 512 + q1,
            q0,
        );
    };
    assert(vpn0(va) == q0);
}

/// Below `VA_LIMIT` the walk indices are exactly the digits of the page
/// number, so two addresses share a page if and only if they share all three
/// indices.
pub proof fn lemma_page_index(x: u64)
    requires
        x < VA_LIMIT,
    ensures
        (x as int) / 4096 == (vpn2(x) * 512 + vpn1(x)) * 512 + vpn0(x),
        vpn0(x) == ((x as int) / 4096) % 512,
        vpn1(x) == (((x as int) / 4096) / 512) % 512,
        vpn2(x) == (((x as int) / 4096) / 512) / 512,
{
    lemma_va_parts(x);
    let v0 = vpn0(x);
    let v1 = vpn1(x);
    let v2 = vpn2(x);
    let p = (v2 * 512 + v1) * 512 + v0;
    vstd::arithmetic::div_mod::lemma_fundamental_div_mod_converse(
        x as int,
        4096,
        p,
        (x as int) % 4096,
    );
    assert((x as int) / 4096 == p);
    vstd::arithmetic::div_mod::lemma_fundamental_div_mod_converse(p, 512, v2 * 512 + v1, v0);
    assert(p % 512 == v0 && p / 512 == v2 * 512 + v1);
    vstd::arithmetic::div_mod::lemma_fundamental_div_mod_converse(v2 * 512 + v1, 512, v2, v1);
}

/// Fields of a leaf entry built from a page-aligned physical address.
proof fn lemma_leaf_pte(pa: u64)
    requires
        pa % 4096 == 0,
    ensures
        leaf_pte(pa) == (pa as int) / 4 + 0xef,
        0 <= leaf_pte(pa) <= u64::MAX,
        tgt(leaf_pte(pa) as u64) == (pa as int) / 4096,
        leaf_e(leaf_pte(pa) as u64),
        !ptr_e(leaf_pte(pa) as u64),
        valid_e(leaf_pte(pa) as u64),
{
    let q = (pa as int) / 4096;
    vstd::arithmetic::div_mod::lemma_fundamental_div_mod(pa as int, 4096);
    assert(pa == 4096 * q);
    assert((pa as int) / 4 == 1024 * q) by {
        vstd::arithmetic::div_mod::lemma_fundamental_div_mod_converse(pa as int, 4, 1024 * q, 0);
    };
    let e = 1024 * q + 0xef;
    assert(e / 1024 == q && e % 1024 == 0xef) by {
        vstd::arithmetic::div_mod::lemma_fundamental_div_mod_converse(e, 1024, q, 0xef);
    };
    assert(e % 2 == 1 && (e / 2) % 8 != 0) by {
        assert(e == 2 * (512 * q + 119) + 1);
        vstd::arithmetic::div_mod::lemma_fundamental_div_mod_converse(e, 2, 512 * q + 119, 1);
        assert(e / 2 == 512 * q + 119);
        vstd::arithmetic::div_mod::lemma_fundamental_div_mod_converse(
            512 * q + 119,
            8,
            64 * q + 14,
            7,
        );
    };
}

/// Fields of a pointer entry built from a node handle.
proof fn lemma_ptr_pte(h: int)
    requires
        0 <= h < 0x1000_0000_0000,
    ensures
        0 <= ptr_pte(h) <= u64::MAX,
        tgt(ptr_pte(h) as u64) == h,
        ptr_e(ptr_pte(h) as u64),
        !leaf_e(ptr_pte(h) as u64),
        valid_e(ptr_pte(h) as u64),
{
    let e = h * 1024 + 0x21;
    assert(e / 1024 == h && e % 1024 == 0x21) by {
        vstd::arithmetic::div_mod::lemma_fundamental_div_mod_converse(e, 1024, h, 0x21);
    };
    assert(e % 2 == 1 && (e / 2) % 8 == 0) by {
        assert(e == 2 * (512 * h + 16) + 1);
        vstd::arithmetic::div_mod::lemma_fundamental_div_mod_converse(e, 2, 512 * h + 16, 1);
        assert(e / 2 == 512 * h + 16);
        vstd::arithmetic::div_mod::lemma_fundamental_div_mod_converse(512 * h + 16, 8, 64 * h + 2, 0);
    };
}

impl AddressSpace {
    /// Allocate the root node if the space has none yet.
    fn ensure_root(&mut self)
        requires
            old(self).wf(),
        ensures
            final(self).wf(),
            final(self).root@.len() == 512,
            old(self).root@.len() == 512 ==> final(self).root@ == old(self).root@,
            old(self).root@.len() == 0 ==> forall|k: int| 0 <= k < 512 ==> final(self).root@[k] == 0,
            final(self).l1@ == old(self).l1@,
            final(self).l0@ == old(self).l0@,
            final(self).pages@ == old(self).pages@,
            forall|x: u64| final(self).l0_entry(x) == old(self).l0_entry(x),
            forall|x: u64| final(self).superpage_at(x) == old(self).superpage_at(x),
            final(self).alloc_count() == old(self).alloc_count(),
            final(self).active == old(self).active,
            final(self).brk == old(self).brk,
            final(self).brk_min == old(self).brk_min,
            final(self).brk_max == old(self).brk_max,
    {
        if self.root.len() == 0 {
            let r = zero_node();
            self.root = r;
            proof {
                assert forall|x: u64|
                    final(self).l0_entry(x) == old(self).l0_entry(x) && final(self).superpage_at(x)
                        == old(self).superpage_at(x) by {
                    assert(!ptr_e(self.root@[vpn2(x)]) && !leaf_e(self.root@[vpn2(x)])) by {
                        lemma_va_parts_any(x);
                    };
                }
            }
        }
    }

    /// Make sure the walk for `va` can descend from the root, allocating the
    /// level-1 node on the path if it is missing; returns its handle.
    fn ensure_l1(&mut self, va: u64) -> (n: usize)
        requires
            old(self).wf(),
            old(self).path_clear(va),
            old(self).alloc_count() + 2 <= ARENA_CAP,
        ensures
            final(self).wf(),
            final(self).root@.len() == 512,
            n < final(self).l1@.len(),
            final(self).l1@[n as int]@.len() == 512,
            ptr_e(final(self).root@[vpn2(va)]),
            tgt(final(self).root@[vpn2(va)]) == n,
            final(self).l0@ == old(self).l0@,
            final(self).pages@ == old(self).pages@,
            forall|x: u64| final(self).l0_entry(x) == old(self).l0_entry(x),
            forall|x: u64| final(self).superpage_at(x) == old(self).superpage_at(x),
            final(self).alloc_count() <= old(self).alloc_count() + 1,
            final(self).active == old(self).active,
            final(self).brk == old(self).brk,
            final(self).brk_min == old(self).brk_min,
            final(self).brk_max == old(self).brk_max,
    {
        self.ensure_root();
        let ghost mid = *self;
        let v2: usize = ((va / 0x4000_0000) % 512) as usize;
        proof {
            lemma_va_parts_any(va);
            assert(v2 as int == vpn2(va));
        }
        let e2: u64 = self.root[v2];
        if e2 % 2 == 1 {
            proof {
                // A valid root entry on a clear path is a pointer.
                assert(!leaf_e(e2));
                assert(ptr_e(e2));
            }
            let n: usize = (e2 / 1024) as usize;
            n
        } else {
            let n: usize = self.l1.len();
            let node = zero_node();
            self.l1.push(node);
            let pte: u64 = (n as u64) * 1024 + PTR_FLAGS;
            self.root[v2] = pte;
            proof {
                lemma_ptr_pte(n as int);
                assert(self.root@ == mid.root@.update(v2 as int, pte));
                assert forall|x: u64|
                    self.l0_entry(x) == mid.l0_entry(x) && self.superpage_at(x)
                        == mid.superpage_at(x) by {
                    lemma_va_parts_any(x);
                    if vpn2(x) == vpn2(va) {
                        assert(!ptr_e(e2) && !leaf_e(e2));
                        assert(self.l1@[n as int]@[vpn1(x)] == 0);
                    } else {
                        assert(self.root@[vpn2(x)] == mid.root@[vpn2(x)]);
                        if ptr_e(mid.root@[vpn2(x)]) {
                            assert(tgt(mid.root@[vpn2(x)]) < mid.l1@.len());
                            assert(self.l1@[tgt(mid.root@[vpn2(x)])] == mid.l1@[tgt(
                                mid.root@[vpn2(x)],
                            )]);
                        }
                    }
                }
                assert(self.wf()) by {
                    assert forall|k: int|
                        0 <= k < self.root@.len() && ptr_e(#[trigger] self.root@[k]) implies tgt(
                        self.root@[k],
                    ) < self.l1@.len() by {
                        if k != v2 as int {
                            assert(self.root@[k] == mid.root@[k]);
                        }
                    };
                    assert forall|i: int, k: int|
                        0 <= i < self.l1@.len() && 0 <= k < 512 && ptr_e(
                            #[trigger] self.l1@[i]@[k],
                        ) implies tgt(self.l1@[i]@[k]) < self.l0@.len() by {
                        if i < mid.l1@.len() {
                            assert(self.l1@[i] == mid.l1@[i]);
                        } else {
                            assert(self.l1@[i]@[k] == 0);
                        }
                    };
                    assert forall|i1: int, k1: int, i2: int, k2: int|
                        0 <= i1 < self.l1@.len() && 0 <= k1 < 512 && 0 <= i2 < self.l1@.len() && 0
                            <= k2 < 512 && (i1 != i2 || k1 != k2) && ptr_e(
                            #[trigger] self.l1@[i1]@[k1],
                        ) && ptr_e(#[trigger] self.l1@[i2]@[k2]) implies tgt(self.l1@[i1]@[k1])
                        != tgt(self.l1@[i2]@[k2]) by {
                        if i1 < mid.l1@.len() {
                            assert(self.l1@[i1] == mid.l1@[i1]);
                        } else {
                            assert(self.l1@[i1]@[k1] == 0);
                        }
                        if i2 < mid.l1@.len() {
                            assert(self.l1@[i2] == mid.l1@[i2]);
                        } else {
                            assert(self.l1@[i2]@[k2] == 0);
                        }
                    };
                }
            }
            n
        }
    }

    /// Make sure the walk for `va` can descend to level 0, allocating missing
    /// nodes on the path; returns the handle of the level-0 node.
    fn ensure_l0(&mut self, va: u64) -> (m: usize)
        requires
            old(self).wf(),
            old(self).path_clear(va),
            old(self).alloc_count() + 3 <= ARENA_CAP,
        ensures
            final(self).wf(),
            final(self).root@.len() == 512,
            m < final(self).l0@.len(),
            final(self).l0@[m as int]@.len() == 512,
            ptr_e(final(self).root@[vpn2(va)]),
            ptr_e(final(self).l1@[tgt(final(self).root@[vpn2(va)])]@[vpn1(va)]),
            tgt(final(self).l1@[tgt(final(self).root@[vpn2(va)])]@[vpn1(va)]) == m,
            final(self).pages@ == old(self).pages@,
            forall|x: u64| final(self).l0_entry(x) == old(self).l0_entry(x),
            forall|x: u64| final(self).superpage_at(x) == old(self).superpage_at(x),
            forall|h: int|
                old(self).page_unreferenced(h) ==> final(self).page_unreferenced(h),
            final(self).alloc_count() <= old(self).alloc_count() + 2,
            final(self).active == old(self).active,
            final(self).brk == old(self).brk,
            final(self).brk_min == old(self).brk_min,
            final(self).brk_max == old(self).brk_max,
    {
        let n = self.ensure_l1(va);
        let ghost mid = *self;
        let v1: usize = ((va / 0x20_0000) % 512) as usize;
        proof {
            lemma_va_parts_any(va);
            assert(v1 as int == vpn1(va));
        }
        let e1: u64 = self.l1[n][v1];
        if e1 % 2 == 1 {
            proof {
                // A valid level-1 entry on a clear path is a pointer.
                assert(mid.superpage_at(va) is None);
                assert(!leaf_e(e1));
                assert(ptr_e(e1));
            }
            let m: usize = (e1 / 1024) as usize;
            m
        } else {
            let m: usize = self.l0.len();
            let node = zero_node();
            self.l0.push(node);
            let pte: u64 = (m as u64) * 1024 + PTR_FLAGS;
            self.l1[n][v1] = pte;
            proof {
                lemma_ptr_pte(m as int);
                assert(self.l1@ == mid.l1@.update(n as int, mid.l1@[n as int]).update(
                    n as int,
                    self.l1@[n as int],
                ));
                assert(self.l1@[n as int]@ == mid.l1@[n as int]@.update(v1 as int, pte));
                assert forall|x: u64|
                    self.l0_entry(x) == mid.l0_entry(x) && self.superpage_at(x)
                        == mid.superpage_at(x) by {
                    lemma_va_parts_any(x);
                    if self.root@.len() == 512 && ptr_e(self.root@[vpn2(x)]) {
                        let t = tgt(self.root@[vpn2(x)]);
                        if t == n as int {
                            if vpn1(x) == v1 as int {
                                assert(!ptr_e(e1) && !leaf_e(e1));
                                assert(self.l0@[m as int]@[vpn0(x)] == 0);
                            } else {
                                assert(self.l1@[t]@[vpn1(x)] == mid.l1@[t]@[vpn1(x)]);
                                if ptr_e(mid.l1@[t]@[vpn1(x)]) {
                                    assert(self.l0@[tgt(mid.l1@[t]@[vpn1(x)])] == mid.l0@[tgt(
                                        mid.l1@[t]@[vpn1(x)],
                                    )]);
                                }
                            }
                        } else {
                            assert(self.l1@[t]@[vpn1(x)] == mid.l1@[t]@[vpn1(x)]);
                            if ptr_e(mid.l1@[t]@[vpn1(x)]) {
                                assert(self.l0@[tgt(mid.l1@[t]@[vpn1(x)])] == mid.l0@[tgt(
                                    mid.l1@[t]@[vpn1(x)],
                                )]);
                            }
                        }
                    }
                }
                assert(self.wf()) by {
                    assert forall|i: int, k: int|
                        0 <= i < self.l1@.len() && 0 <= k < 512 && ptr_e(
                            #[trigger] self.l1@[i]@[k],
                        ) implies tgt(self.l1@[i]@[k]) < self.l0@.len() by {
                        if i != n as int || k != v1 as int {
                            assert(self.l1@[i]@[k] == mid.l1@[i]@[k]);
                        }
                    };
                    assert forall|i1: int, k1: int, i2: int, k2: int|
                        0 <= i1 < self.l1@.len() && 0 <= k1 < 512 && 0 <= i2 < self.l1@.len() && 0
                            <= k2 < 512 && (i1 != i2 || k1 != k2) && ptr_e(
                            #[trigger] self.l1@[i1]@[k1],
                        ) && ptr_e(#[trigger] self.l1@[i2]@[k2]) implies tgt(self.l1@[i1]@[k1])
                        != tgt(self.l1@[i2]@[k2]) by {
                        if i1 != n as int || k1 != v1 as int {
                            assert(self.l1@[i1]@[k1] == mid.l1@[i1]@[k1]);
                            assert(tgt(self.l1@[i1]@[k1]) < mid.l0@.len());
                        }
                        if i2 != n as int || k2 != v1 as int {
                            assert(self.l1@[i2]@[k2] == mid.l1@[i2]@[k2]);
                            assert(tgt(self.l1@[i2]@[k2]) < mid.l0@.len());
                        }
                    };
                    assert forall|i: int, k: int|
                        0 <= i < self.l0@.len() && 0 <= k < 512 && valid_e(
                            #[trigger] self.l0@[i]@[k],
                        ) implies leaf_e(self.l0@[i]@[k]) && tgt(self.l0@[i]@[k])
                        < self.pages@.len() by {
                        if i < mid.l0@.len() {
                            assert(self.l0@[i] == mid.l0@[i]);
                        } else {
                            assert(self.l0@[i]@[k] == 0);
                        }
                    };
                    assert forall|i1: int, k1: int, i2: int, k2: int|
                        0 <= i1 < self.l0@.len() && 0 <= k1 < 512 && 0 <= i2 < self.l0@.len() && 0
                            <= k2 < 512 && (i1 != i2 || k1 != k2) && valid_e(
                            #[trigger] self.l0@[i1]@[k1],
                        ) && valid_e(#[trigger] self.l0@[i2]@[k2]) implies tgt(self.l0@[i1]@[k1])
                        != tgt(self.l0@[i2]@[k2]) by {
                        if i1 < mid.l0@.len() {
                            assert(self.l0@[i1] == mid.l0@[i1]);
                        } else {
                            assert(self.l0@[i1]@[k1] == 0);
                        }
                        if i2 < mid.l0@.len() {
                            assert(self.l0@[i2] == mid.l0@[i2]);
                        } else {
                            assert(self.l0@[i2]@[k2] == 0);
                        }
                    };
                }
                assert forall|h: int|
                    mid.page_unreferenced(h) implies self.page_unreferenced(h) by {
                    assert forall|i: int, k: int|
                        0 <= i < self.l0@.len() && 0 <= k < 512 && valid_e(
                            #[trigger] self.l0@[i]@[k],
                        ) implies tgt(self.l0@[i]@[k]) != h by {
                        if i < mid.l0@.len() {
                            assert(self.l0@[i] == mid.l0@[i]);
                        } else {
                            assert(self.l0@[i]@[k] == 0);
                        }
                    };
                };
            }
            m
        }
    }
}

impl AddressSpace {
    /// Install a level-0 leaf for `va` referring to the data page `h`.
    fn install_page(&mut self, va: u64, h: usize)
        requires
            old(self).wf(),
            old(self).path_clear(va),
            h < old(self).pages@.len(),
            old(self).page_unreferenced(h as int),
            old(self).alloc_count() + 3 <= ARENA_CAP,
        ensures
            final(self).wf(),
            forall|x: u64|
                final(self).l0_entry(x) == if same_page(x, va) {
                    Some(h as int)
                } else {
                    old(self).l0_entry(x)
                },
            forall|x: u64| final(self).superpage_at(x) == old(self).superpage_at(x),
            final(self).pages@ == old(self).pages@,
            final(self).alloc_count() <= old(self).alloc_count() + 2,
            final(self).active == old(self).active,
            final(self).brk == old(self).brk,
            final(self).brk_min == old(self).brk_min,
            final(self).brk_max == old(self).brk_max,
    {
        let m = self.ensure_l0(va);
        let ghost mid = *self;
        let v0: usize = ((va / 4096) % 512) as usize;
        proof {
            lemma_va_parts_any(va);
            assert(v0 as int == vpn0(va));
        }
        let pte: u64 = (h as u64) * 1024 + LEAF_FLAGS;
        self.l0[m][v0] = pte;
        proof {
            let ghost pa64: u64 = (((h as int) * 4096) as u64);
            assert(pa64 == (h as int) * 4096 && pa64 % 4096 == 0) by {
                assert((h as int) * 4096 < 0x1_0000_0000_0000);
                vstd::arithmetic::div_mod::lemma_fundamental_div_mod_converse(
                    (h as int) * 4096,
                    4096,
                    h as int,
                    0,
                );
            };
            lemma_leaf_pte(pa64);
            assert(pte == leaf_pte(pa64));
            assert(tgt(pte) == h as int && leaf_e(pte) && !ptr_e(pte));
            assert(self.l0@ == mid.l0@.update(m as int, self.l0@[m as int]));
            assert(self.l0@[m as int]@ == mid.l0@[m as int]@.update(v0 as int, pte));
            let t2 = tgt(mid.root@[vpn2(va)]);
            assert forall|x: u64|
                self.l0_entry(x) == (if same_page(x, va) {
                    Some(h as int)
                } else {
                    mid.l0_entry(x)
                }) && self.superpage_at(x) == mid.superpage_at(x) by {
                lemma_va_parts_any(x);
                if self.root@.len() == 512 && ptr_e(self.root@[vpn2(x)]) {
                    let tx = tgt(self.root@[vpn2(x)]);
                    if ptr_e(self.l1@[tx]@[vpn1(x)]) {
                        let mx = tgt(self.l1@[tx]@[vpn1(x)]);
                        if mx == m as int {
                            // By injectivity this walk shares the whole path.
                            assert(tx == t2 && vpn1(x) == vpn1(va));
                            assert(vpn2(x) == vpn2(va));
                            if vpn0(x) == v0 as int {
                                assert(same_page(x, va));
                            } else {
                                assert(self.l0@[mx]@[vpn0(x)] == mid.l0@[mx]@[vpn0(x)]);
                                assert(!same_page(x, va));
                            }
                        } else {
                            assert(self.l0@[mx] == mid.l0@[mx]);
                            assert(!same_page(x, va)) by {
                                if same_page(x, va) {
                                    assert(tx == t2 && mx == m as int);
                                }
                            };
                        }
                    } else {
                        assert(!same_page(x, va));
                    }
                } else {
                    assert(!same_page(x, va));
                }
            }
            assert(self.wf()) by {
                assert forall|i: int, k: int|
                    0 <= i < self.l0@.len() && 0 <= k < 512 && valid_e(
                        #[trigger] self.l0@[i]@[k],
                    ) implies leaf_e(self.l0@[i]@[k]) && tgt(self.l0@[i]@[k])
                    < self.pages@.len() by {
                    if i != m as int || k != v0 as int {
                        assert(self.l0@[i]@[k] == mid.l0@[i]@[k]);
                    }
                };
                assert forall|i1: int, k1: int, i2: int, k2: int|
                    0 <= i1 < self.l0@.len() && 0 <= k1 < 512 && 0 <= i2 < self.l0@.len() && 0 <= k2
                        < 512 && (i1 != i2 || k1 != k2) && valid_e(#[trigger] self.l0@[i1]@[k1])
                        && valid_e(#[trigger] self.l0@[i2]@[k2]) implies tgt(self.l0@[i1]@[k1])
                    != tgt(self.l0@[i2]@[k2]) by {
                    if i1 != m as int || k1 != v0 as int {
                        assert(self.l0@[i1]@[k1] == mid.l0@[i1]@[k1]);
                    }
                    if i2 != m as int || k2 != v0 as int {
                        assert(self.l0@[i2]@[k2] == mid.l0@[i2]@[k2]);
                    }
                };
            }
        }
    }

    /// Map one fresh zero page at the page-aligned address `base`.
    #[verifier::rlimit(50)]
    fn map_new_page(&mut self, base: u64)
        requires
            old(self).wf(),
            base % 4096 == 0,
            base + 4096 <= VA_LIMIT,
            old(self).path_clear(base),
            old(self).alloc_count() + 4 <= ARENA_CAP,
        ensures
            final(self).wf(),
            forall|x: u64|
                base <= x < base + 4096 ==> final(self).mapped(x) && final(self).mem(x) == 0,
            forall|x: u64|
                x < VA_LIMIT && !(base <= x < base + 4096)
                    ==> final(self).l0_entry(x) == old(self).l0_entry(x),
            forall|x: u64|
                x < VA_LIMIT && !(base <= x < base + 4096) && old(self).mapped(x)
                    ==> final(self).mem(x) == old(self).mem(x),
            forall|x: u64| final(self).superpage_at(x) == old(self).superpage_at(x),
            final(self).alloc_count() <= old(self).alloc_count() + 3,
            final(self).active == old(self).active,
            final(self).brk == old(self).brk,
            final(self).brk_min == old(self).brk_min,
            final(self).brk_max == old(self).brk_max,
    {
        let ghost pre = *self;
        let h: usize = self.pages.len();
        let pg = zero_page();
        let ghost pgv = pg@;
        self.pages.push(pg);
        proof {
            assert(self.pages@[h as int]@ == pgv);
            assert(forall|i: int| 0 <= i < h ==> self.pages@[i] == pre.pages@[i]);
            assert(self.wf());
            assert(self.page_unreferenced(h as int));
            assert forall|x: u64|
                self.l0_entry(x) == pre.l0_entry(x) && self.superpage_at(x) == pre.superpage_at(
                    x,
                ) by {};
            assert forall|x: u64| pre.mapped(x) implies self.mem(x) == pre.mem(x) by {
                let t = pre.l0_entry(x)->Some_0;
                pre.lemma_mapped_bound(x);
                assert(self.pages@[t] == pre.pages@[t]);
            };
            assert(self.path_clear(base));
        }
        self.install_page(base, h);
        proof {
            let post = *self;
            assert forall|x: u64| base <= x < base + 4096 implies post.mapped(x) && post.mem(x)
                == 0 by {
                lemma_page_index(x);
                lemma_page_index(base);
                assert((x as int) / 4096 == (base as int) / 4096) by {
                    vstd::arithmetic::div_mod::lemma_fundamental_div_mod(base as int, 4096);
                    vstd::arithmetic::div_mod::lemma_fundamental_div_mod_converse(
                        x as int,
                        4096,
                        (base as int) / 4096,
                        x - base,
                    );
                };
                assert(same_page(x, base));
                assert(post.l0_entry(x) == Some(h as int));
                assert(post.mem(x) == 0);
            };
            assert forall|x: u64|
                x < VA_LIMIT && !(base <= x < base + 4096) implies post.l0_entry(x)
                == pre.l0_entry(x) && (pre.mapped(x) ==> post.mem(x) == pre.mem(x)) by {
                lemma_page_index(x);
                lemma_page_index(base);
                assert((x as int) / 4096 != (base as int) / 4096) by {
                    vstd::arithmetic::div_mod::lemma_fundamental_div_mod(x as int, 4096);
                    vstd::arithmetic::div_mod::lemma_fundamental_div_mod(base as int, 4096);
                };
                assert(!same_page(x, base));
                assert(post.l0_entry(x) == pre.l0_entry(x));
                if pre.mapped(x) {
                    let t = pre.l0_entry(x)->Some_0;
                    pre.lemma_mapped_bound(x);
                    assert(post.pages@[t] == pre.pages@[t]);
                }
            };
        }
    }

    /// Allocate `len / PAGE_SIZE` fresh zero pages and leaf-map each one, so
    /// that all of `[va, va + len)` reads as zero and takes writes.
    #[verifier::rlimit(50)]
    pub fn map_new(&mut self, va: u64, len: u64)
        requires
            old(self).wf(),
            va % 4096 == 0,
            len % 4096 == 0,
            va + len <= VA_LIMIT,
            old(self).range_clear(va, len),
            old(self).alloc_count() + 3 * ((len as int) / 4096) + 1 <= ARENA_CAP,
        ensures
            final(self).wf(),
            forall|x: u64| va <= x < va + len ==> final(self).mapped(x) && final(self).mem(x) == 0,
            forall|x: u64|
                x < VA_LIMIT && !(va <= x < va + len) ==> final(self).l0_entry(x) == old(
                    self,
                ).l0_entry(x),
            forall|x: u64|
                x < VA_LIMIT && !(va <= x < va + len) && old(self).mapped(x) ==> final(self).mem(x)
                    == old(self).mem(x),
            forall|x: u64| final(self).superpage_at(x) == old(self).superpage_at(x),
            final(self).alloc_count() <= old(self).alloc_count() + 3 * ((len as int) / 4096),
            final(self).is_active() == old(self).is_active(),
            final(self).heap_end() == old(self).heap_end(),
            final(self).heap_min() == old(self).heap_min(),
            final(self).heap_max() == old(self).heap_max(),
    {
        let mut off: u64 = 0;
        while off < len
            invariant
                self.wf(),
                va % 4096 == 0,
                len % 4096 == 0,
                off % 4096 == 0,
                off <= len,
                va + len <= VA_LIMIT,
                forall|x: u64| va + off <= x < va + len ==> self.path_clear(x),
                forall|x: u64| va <= x < va + off ==> self.mapped(x) && self.mem(x) == 0,
                forall|x: u64|
                    x < VA_LIMIT && !(va <= x < va + off) ==> self.l0_entry(x) == old(
                        self,
                    ).l0_entry(x),
                forall|x: u64|
                    x < VA_LIMIT && !(va <= x < va + off) && old(self).mapped(x) ==> self.mem(x)
                        == old(self).mem(x),
                forall|x: u64| self.superpage_at(x) == old(self).superpage_at(x),
                self.alloc_count() <= old(self).alloc_count() + 3 * ((off as int) / 4096),
                old(self).alloc_count() + 3 * ((len as int) / 4096) + 1 <= ARENA_CAP,
                self.active == old(self).active,
                self.brk == old(self).brk,
                self.brk_min == old(self).brk_min,
                self.brk_max == old(self).brk_max,
            decreases len - off,
        {
            let base: u64 = va + off;
            let ghost pre = *self;
            proof {
                assert((off as int) / 4096 <= (len as int) / 4096 - 1) by {
                    vstd::arithmetic::div_mod::lemma_fundamental_div_mod(off as int, 4096);
                    vstd::arithmetic::div_mod::lemma_fundamental_div_mod(len as int, 4096);
                };
            }
            self.map_new_page(base);
            proof {
                assert((off as int) / 4096 + 1 == ((off + 4096) as int) / 4096) by {
                    vstd::arithmetic::div_mod::lemma_fundamental_div_mod(off as int, 4096);
                    vstd::arithmetic::div_mod::lemma_fundamental_div_mod_converse(
                        off + 4096,
                        4096,
                        (off as int) / 4096 + 1,
                        0,
                    );
                };
                assert forall|x: u64| va <= x < va + off + 4096 implies self.mapped(x)
                    && self.mem(x) == 0 by {
                    if x < base {
                        assert(pre.mapped(x) && pre.mem(x) == 0);
                        assert(self.l0_entry(x) == pre.l0_entry(x));
                        assert(self.mem(x) == pre.mem(x));
                    }
                };
                assert forall|x: u64| va + off + 4096 <= x < va + len implies self.path_clear(
                    x,
                ) by {
                    assert(self.superpage_at(x) == pre.superpage_at(x));
                    assert(pre.path_clear(x));
                };
            }
            off = off + 4096;
        }
    }
}

impl AddressSpace {
    /// Install one mapping at trie level `level` (0 = 4 KiB, 1 = 2 MiB,
    /// 2 = 1 GiB), allocating missing intermediate nodes.  The leaf gets full
    /// read/write/execute/user permissions.  A 4 KiB leaf must refer to an
    /// allocated data page that no other leaf refers to.
    pub fn map_one(&mut self, va: u64, pa: u64, level: u64)
        requires
            old(self).wf(),
            pa % 4096 == 0,
            level <= 2,
            level < 2 ==> old(self).path_clear(va),
            level == 0 ==> (pa as int) / 4096 < old(self).page_count()
                && old(self).page_unreferenced((pa as int) / 4096),
            old(self).alloc_count() + 4 <= ARENA_CAP,
        ensures
            final(self).wf(),
            level == 2 ==> forall|x: u64|
                vpn2(x) == vpn2(va) ==> final(self).superpage_at(x) == Some((pa as int, 2int))
                    && final(self).l0_entry(x) is None,
            level == 2 ==> forall|x: u64|
                vpn2(x) != vpn2(va) ==> final(self).superpage_at(x) == old(self).superpage_at(x)
                    && final(self).l0_entry(x) == old(self).l0_entry(x) && final(self).mem(x)
                    == old(self).mem(x),
            level == 1 ==> forall|x: u64|
                vpn2(x) == vpn2(va) && vpn1(x) == vpn1(va) ==> final(self).superpage_at(x) == Some(
                    (pa as int, 1int),
                ) && final(self).l0_entry(x) is None,
            level == 1 ==> forall|x: u64|
                !(vpn2(x) == vpn2(va) && vpn1(x) == vpn1(va)) ==> final(self).superpage_at(x)
                    == old(self).superpage_at(x) && final(self).l0_entry(x)
                    == old(self).l0_entry(x) && final(self).mem(x) == old(self).mem(x),
            level == 0 ==> forall|x: u64|
                same_page(x, va) ==> final(self).l0_entry(x) == Some((pa as int) / 4096),
            level == 0 ==> forall|x: u64|
                !same_page(x, va) ==> final(self).l0_entry(x) == old(self).l0_entry(x)
                    && final(self).mem(x) == old(self).mem(x),
            level == 0 ==> forall|x: u64| final(self).superpage_at(x) == old(self).superpage_at(x),
            final(self).alloc_count() <= old(self).alloc_count() + 3,
            final(self).is_active() == old(self).is_active(),
            final(self).heap_end() == old(self).heap_end(),
            final(self).heap_min() == old(self).heap_min(),
            final(self).heap_max() == old(self).heap_max(),
    {
        proof {
            lemma_va_parts_any(va);
            lemma_leaf_pte(pa);
            vstd::arithmetic::div_mod::lemma_fundamental_div_mod(pa as int, 4096);
        }
        if level == 2 {
            self.ensure_root();
            let ghost mid = *self;
            let v2: usize = ((va / 0x4000_0000) % 512) as usize;
            let pte: u64 = pa / 4 + LEAF_FLAGS;
            self.root[v2] = pte;
            proof {
                assert(self.root@ == mid.root@.update(v2 as int, pte));
                assert(self.wf()) by {
                    assert forall|k: int|
                        0 <= k < self.root@.len() && ptr_e(#[trigger] self.root@[k]) implies tgt(
                        self.root@[k],
                    ) < self.l1@.len() by {
                        assert(self.root@[k] == mid.root@[k]);
                    };
                }
                assert forall|x: u64| vpn2(x) == vpn2(va) implies self.superpage_at(x) == Some(
                    (pa as int, 2int),
                ) && self.l0_entry(x) is None by {
                    assert(self.root@[vpn2(x)] == pte);
                    assert(tgt(pte) * 4096 == pa);
                };
                assert forall|x: u64| vpn2(x) != vpn2(va) implies self.superpage_at(x)
                    == mid.superpage_at(x) && self.l0_entry(x) == mid.l0_entry(x) && self.mem(x)
                    == mid.mem(x) by {
                    lemma_va_parts_any(x);
                    assert(self.root@[vpn2(x)] == mid.root@[vpn2(x)]);
                };
            }
        } else if level == 1 {
            let n = self.ensure_l1(va);
            let ghost mid = *self;
            let v1: usize = ((va / 0x20_0000) % 512) as usize;
            let pte: u64 = pa / 4 + LEAF_FLAGS;
            self.l1[n][v1] = pte;
            proof {
                assert(self.l1@ == mid.l1@.update(n as int, self.l1@[n as int]));
                assert(self.l1@[n as int]@ == mid.l1@[n as int]@.update(v1 as int, pte));
                assert(self.wf()) by {
                    assert forall|i: int, k: int|
                        0 <= i < self.l1@.len() && 0 <= k < 512 && ptr_e(
                            #[trigger] self.l1@[i]@[k],
                        ) implies tgt(self.l1@[i]@[k]) < self.l0@.len() by {
                        if i != n as int || k != v1 as int {
                            assert(self.l1@[i]@[k] == mid.l1@[i]@[k]);
                        }
                    };
                    assert forall|i1: int, k1: int, i2: int, k2: int|
                        0 <= i1 < self.l1@.len() && 0 <= k1 < 512 && 0 <= i2 < self.l1@.len() && 0
                            <= k2 < 512 && (i1 != i2 || k1 != k2) && ptr_e(
                            #[trigger] self.l1@[i1]@[k1],
                        ) && ptr_e(#[trigger] self.l1@[i2]@[k2]) implies tgt(self.l1@[i1]@[k1])
                        != tgt(self.l1@[i2]@[k2]) by {
                        if i1 != n as int || k1 != v1 as int {
                            assert(self.l1@[i1]@[k1] == mid.l1@[i1]@[k1]);
                        }
                        if i2 != n as int || k2 != v1 as int {
                            assert(self.l1@[i2]@[k2] == mid.l1@[i2]@[k2]);
                        }
                    };
                }
                assert forall|x: u64| vpn2(x) == vpn2(va) && vpn1(x) == vpn1(va) implies self
                    .superpage_at(x) == Some((pa as int, 1int)) && self.l0_entry(x) is None by {
                    assert(tgt(self.root@[vpn2(x)]) == n);
                    assert(self.l1@[n as int]@[vpn1(x)] == pte);
                    assert(tgt(pte) * 4096 == pa);
                };
                assert forall|x: u64|
                    !(vpn2(x) == vpn2(va) && vpn1(x) == vpn1(va)) implies self.superpage_at(x)
                    == mid.superpage_at(x) && self.l0_entry(x) == mid.l0_entry(x) && self.mem(x)
                    == mid.mem(x) by {
                    lemma_va_parts_any(x);
                    if self.root@.len() == 512 && ptr_e(self.root@[vpn2(x)]) {
                        let t = tgt(self.root@[vpn2(x)]);
                        if t == n as int {
                            // Same level-1 node, so the root index agrees and
                            // only the level-1 index can differ.
                            assert(vpn2(x) == vpn2(va));
                            assert(self.l1@[t]@[vpn1(x)] == mid.l1@[t]@[vpn1(x)]);
                        } else {
                            assert(self.l1@[t]@[vpn1(x)] == mid.l1@[t]@[vpn1(x)]);
                        }
                    }
                };
            }
        } else {
            let h: usize = ((pa / 4096) as usize);
            self.install_page(va, h);
        }
    }

    /// Read the byte at `va` through the page tables.
    pub fn read_byte(&self, va: u64) -> (r: u8)
        requires
            self.wf(),
            self.mapped(va),
        ensures
            r == self.mem(va),
    {
        proof {
            lemma_va_parts_any(va);
            self.lemma_mapped_bound(va);
        }
        let v2: usize = ((va / 0x4000_0000) % 512) as usize;
        proof {
            assert(v2 as int == vpn2(va));
            assert(ptr_e(self.root@[vpn2(va)]));
            assert(tgt(self.root@[vpn2(va)]) < self.l1@.len());
        }
        let e2: u64 = self.root[v2];
        let n: usize = (e2 / 1024) as usize;
        let v1: usize = ((va / 0x20_0000) % 512) as usize;
        proof {
            assert(self.l1@.len() == self.l1.len());
            assert(n as int == tgt(e2));
            assert(v1 as int == vpn1(va));
            assert(ptr_e(self.l1@[tgt(e2)]@[vpn1(va)]));
            assert(tgt(self.l1@[n as int]@[v1 as int]) < self.l0@.len());
        }
        let e1: u64 = self.l1[n][v1];
        let m: usize = (e1 / 1024) as usize;
        let v0: usize = ((va / 4096) % 512) as usize;
        proof {
            assert(self.l0@.len() == self.l0.len());
            assert(m as int == tgt(e1));
            assert(v0 as int == vpn0(va));
            assert(leaf_e(self.l0@[tgt(e1)]@[vpn0(va)]));
            assert(tgt(self.l0@[m as int]@[v0 as int]) < self.pages@.len());
        }
        let e0: u64 = self.l0[m][v0];
        let h: usize = (e0 / 1024) as usize;
        let off: usize = (va % 4096) as usize;
        proof {
            assert(self.pages@.len() == self.pages.len());
            assert(h as int == tgt(e0));
            assert(self.l0_entry(va) == Some(tgt(e0)));
            assert(self.pages@[h as int]@.len() == 4096);
        }
        self.pages[h][off]
    }

    /// Write the byte at `va` through the page tables.  Only the cell of the
    /// page that serves `va` changes.
    pub fn write_byte(&mut self, va: u64, b: u8)
        requires
            old(self).wf(),
            old(self).mapped(va),
        ensures
            final(self).wf(),
            forall|x: u64| final(self).l0_entry(x) == old(self).l0_entry(x),
            forall|x: u64| final(self).superpage_at(x) == old(self).superpage_at(x),
            final(self).mem(va) == b,
            forall|x: u64|
                old(self).mapped(x) && !(same_page(x, va) && (x as int) % 4096 == (va as int)
                    % 4096) ==> final(self).mem(x) == old(self).mem(x),
            final(self).alloc_count() == old(self).alloc_count(),
            final(self).is_active() == old(self).is_active(),
            final(self).heap_end() == old(self).heap_end(),
            final(self).heap_min() == old(self).heap_min(),
            final(self).heap_max() == old(self).heap_max(),
    {
        proof {
            lemma_va_parts_any(va);
            self.lemma_mapped_bound(va);
        }
        let v2: usize = ((va / 0x4000_0000) % 512) as usize;
        proof {
            assert(v2 as int == vpn2(va));
            assert(ptr_e(self.root@[vpn2(va)]));
            assert(tgt(self.root@[vpn2(va)]) < self.l1@.len());
        }
        let e2: u64 = self.root[v2];
        let n: usize = (e2 / 1024) as usize;
        let v1: usize = ((va / 0x20_0000) % 512) as usize;
        proof {
            assert(self.l1@.len() == self.l1.len());
            assert(n as int == tgt(e2));
            assert(v1 as int == vpn1(va));
            assert(ptr_e(self.l1@[tgt(e2)]@[vpn1(va)]));
            assert(tgt(self.l1@[n as int]@[v1 as int]) < self.l0@.len());
        }
        let e1: u64 = self.l1[n][v1];
        let m: usize = (e1 / 1024) as usize;
        let v0: usize = ((va / 4096) % 512) as usize;
        proof {
            assert(self.l0@.len() == self.l0.len());
            assert(m as int == tgt(e1));
            assert(v0 as int == vpn0(va));
            assert(leaf_e(self.l0@[tgt(e1)]@[vpn0(va)]));
            assert(tgt(self.l0@[m as int]@[v0 as int]) < self.pages@.len());
        }
        let e0: u64 = self.l0[m][v0];
        let h: usize = (e0 / 1024) as usize;
        let off: usize = (va % 4096) as usize;
        proof {
            assert(self.pages@.len() == self.pages.len());
            assert(h as int == tgt(e0));
            assert(self.l0_entry(va) == Some(tgt(e0)));
            assert(self.pages@[h as int]@.len() == 4096);
        }
        let ghost pre = *self;
        self.pages[h][off] = b;
        proof {
            assert(self.pages@ == pre.pages@.update(h as int, self.pages@[h as int]));
            assert(self.pages@[h as int]@ == pre.pages@[h as int]@.update(off as int, b));
            assert forall|x: u64|
                pre.mapped(x) && !(same_page(x, va) && (x as int) % 4096 == (va as int)
                    % 4096) implies self.mem(x) == pre.mem(x) by {
                lemma_va_parts_any(x);
                if pre.l0_entry(x) is Some {
                    let t = pre.l0_entry(x)->Some_0;
                    if t == h as int {
                        // Walks that end at the same data page share every
                        // index, by the injectivity of the three levels.
                        let e2x = pre.root@[vpn2(x)];
                        let tx = tgt(e2x);
                        let e1x = pre.l1@[tx]@[vpn1(x)];
                        let mx = tgt(e1x);
                        let e0x = pre.l0@[mx]@[vpn0(x)];
                        assert(ptr_e(e2x) && ptr_e(e1x) && leaf_e(e0x) && tgt(e0x) == t);
                        assert(mx == m as int && vpn0(x) == v0 as int) by {
                            if mx != m as int || vpn0(x) != v0 as int {
                                assert(tgt(pre.l0@[mx]@[vpn0(x)]) != tgt(
                                    pre.l0@[m as int]@[v0 as int],
                                ));
                            }
                        };
                        assert(tx == n as int && vpn1(x) == v1 as int) by {
                            if tx != n as int || vpn1(x) != v1 as int {
                                assert(tgt(pre.l1@[tx]@[vpn1(x)]) != tgt(
                                    pre.l1@[n as int]@[v1 as int],
                                ));
                            }
                        };
                        assert(vpn2(x) == v2 as int) by {
                            if vpn2(x) != v2 as int {
                                assert(tgt(pre.root@[vpn2(x)]) != tgt(pre.root@[v2 as int]));
                            }
                        };
                        assert(same_page(x, va));
                        assert((x as int) % 4096 != off as int);
                        assert(self.pages@[t]@[(x as int) % 4096] == pre.pages@[t]@[(x as int)
                            % 4096]);
                    } else {
                        pre.lemma_mapped_bound(x);
                        assert(self.pages@[t] == pre.pages@[t]);
                    }
                }
            };
        }
    }

    /// Set the three heap bounds to the extent of the loaded executable.
    pub fn seed_heap(&mut self, v: u64)
        requires
            old(self).wf(),
            v % 4096 == 0,
        ensures
            final(self).wf(),
            final(self).heap_is(v, v, v),
            forall|x: u64| final(self).l0_entry(x) == old(self).l0_entry(x),
            forall|x: u64| final(self).superpage_at(x) == old(self).superpage_at(x),
            forall|x: u64| final(self).mem(x) == old(self).mem(x),
            final(self).alloc_count() == old(self).alloc_count(),
            final(self).is_active() == old(self).is_active(),
    {
        self.brk = v;
        self.brk_min = v;
        self.brk_max = v;
    }

    /// Move the heap end, and possibly raise the heap ceiling; the floor
    /// stays.
    pub fn set_heap_bounds(&mut self, end: u64, max: u64)
        requires
            old(self).wf(),
            old(self).heap_min() <= end <= max,
            old(self).heap_max() <= max,
            max % 4096 == 0,
        ensures
            final(self).wf(),
            final(self).heap_is(old(self).heap_min(), end, max),
            forall|x: u64| final(self).l0_entry(x) == old(self).l0_entry(x),
            forall|x: u64| final(self).superpage_at(x) == old(self).superpage_at(x),
            forall|x: u64| final(self).mem(x) == old(self).mem(x),
            final(self).alloc_count() == old(self).alloc_count(),
            final(self).is_active() == old(self).is_active(),
    {
        self.brk = end;
        self.brk_max = max;
    }

    /// Whether this address space is the current translation context.
    pub fn is_active_now(&self) -> (r: bool)
        ensures
            r == self.is_active(),
    {
        self.active
    }

    /// Current heap end.
    pub fn cur_brk(&self) -> (r: u64)
        ensures
            r == self.heap_end(),
    {
        self.brk
    }

    /// Lowest address the heap end may take.
    pub fn cur_brk_min(&self) -> (r: u64)
        ensures
            r == self.heap_min(),
    {
        self.brk_min
    }

    /// One past the mapped heap region.
    pub fn cur_brk_max(&self) -> (r: u64)
        ensures
            r == self.heap_max(),
    {
        self.brk_max
    }

    /// A well-formed space keeps its heap bounds ordered, with a page-aligned
    /// ceiling.
    pub proof fn lemma_wf_heap(self)
        requires
            self.wf(),
        ensures
            self.heap_min() <= self.heap_end() <= self.heap_max(),
            self.heap_max() % 4096 == 0,
    {
    }

    /// What holds of a space with nothing mapped.
    pub proof fn lemma_fresh_props(self)
        requires
            self.fresh(),
        ensures
            self.alloc_count() == 1,
            forall|x: u64| self.path_clear(x),
            forall|x: u64| !self.mapped(x),
            self.heap_is(0, 0, 0),
            !self.is_active(),
    {
    }

    /// A mapped address resolves to a data page that exists in the arena.
    proof fn lemma_mapped_bound(self, x: u64)
        requires
            self.wf(),
            self.mapped(x),
        ensures
            0 <= self.l0_entry(x)->Some_0 < self.pages@.len(),
    {
        lemma_va_parts_any(x);
    }
}

/// The walk indices of any address are in bounds, whatever its magnitude.
proof fn lemma_va_parts_any(va: u64)
    ensures
        0 <= vpn2(va) < 512,
        0 <= vpn1(va) < 512,
        0 <= vpn0(va) < 512,
        0 <= (va as int) % 4096 < 4096,
{
}


impl AddressSpace {
    /// The little-endian 64-bit word the process sees at `va`.
    pub open spec fn word_at(self, va: u64) -> int {
        self.mem(va) + 0x100 * self.mem((va + 1) as u64) + 0x1_0000 * self.mem((va + 2) as u64)
            + 0x100_0000 * self.mem((va + 3) as u64) + 0x1_0000_0000 * self.mem((va + 4) as u64)
            + 0x100_0000_0000 * self.mem((va + 5) as u64) + 0x1_0000_0000_0000 * self.mem(
            (va + 6) as u64,
        ) + 0x100_0000_0000_0000 * self.mem((va + 7) as u64)
    }

    /// Write the word `w` at `va`, least-significant byte first.
    #[verifier::rlimit(100)]
    pub fn write_word(&mut self, va: u64, w: u64)
        requires
            old(self).wf(),
            va + 8 <= VA_LIMIT,
            forall|k: u64| va <= k < va + 8 ==> old(self).mapped(k),
        ensures
            final(self).wf(),
            final(self).word_at(va) == w,
            forall|x: u64| final(self).l0_entry(x) == old(self).l0_entry(x),
            forall|x: u64| final(self).superpage_at(x) == old(self).superpage_at(x),
            forall|x: u64|
                x < VA_LIMIT && !(va <= x < va + 8) && old(self).mapped(x) ==> final(self).mem(x)
                    == old(self).mem(x),
            final(self).alloc_count() == old(self).alloc_count(),
            final(self).is_active() == old(self).is_active(),
            final(self).heap_end() == old(self).heap_end(),
            final(self).heap_min() == old(self).heap_min(),
            final(self).heap_max() == old(self).heap_max(),
    {
        let ghost start = *self;
        let mut k: u64 = 0;
        while k < 8
            invariant
                self.wf(),
                k <= 8,
                va + 8 <= VA_LIMIT,
                forall|j: u64| va <= j < va + 8 ==> self.mapped(j),
                forall|j: u64|
                    va <= j < va + k ==> self.mem(j) == ((w as int) / pow256((j - va) as int))
                        % 256,
                forall|x: u64| self.l0_entry(x) == start.l0_entry(x),
                forall|x: u64| self.superpage_at(x) == start.superpage_at(x),
                forall|x: u64|
                    x < VA_LIMIT && !(va <= x < va + 8) && start.mapped(x) ==> self.mem(x)
                        == start.mem(x),
                self.alloc_count() == start.alloc_count(),
                self.is_active() == start.is_active(),
                self.heap_end() == start.heap_end(),
                self.heap_min() == start.heap_min(),
                self.heap_max() == start.heap_max(),
            decreases 8 - k,
        {
            let divisor: u64 = if k == 0 {
                1
            } else if k == 1 {
                0x100
            } else if k == 2 {
                0x1_0000
            } else if k == 3 {
                0x100_0000
            } else if k == 4 {
                0x1_0000_0000
            } else if k == 5 {
                0x100_0000_0000
            } else if k == 6 {
                0x1_0000_0000_0000
            } else {
                0x100_0000_0000_0000
            };
            proof {
                assert(divisor == pow256(k as int)) by {
                    reveal_with_fuel(pow256, 9);
                };
            }
            let byte: u8 = ((w / divisor) % 256) as u8;
            let ghost pre = *self;
            self.write_byte(va + k, byte);
            proof {
                assert forall|x: u64|
                    x < VA_LIMIT && x != va + k && pre.mapped(x) implies self.mem(x) == pre.mem(
                    x,
                ) by {
                    if same_page(x, (va + k) as u64) && (x as int) % 4096 == ((va + k) as u64
                        as int) % 4096 {
                        lemma_same_page_eq(x, (va + k) as u64);
                    }
                };
                assert forall|j: u64| va <= j < va + 8 implies self.mapped(j) by {
                    assert(pre.mapped(j));
                    assert(self.l0_entry(j) == pre.l0_entry(j));
                };
                assert forall|j: u64|
                    va <= j < va + k + 1 implies self.mem(j) == ((w as int) / pow256(
                    (j - va) as int,
                )) % 256 by {
                    if j == va + k {
                        assert(self.mem(j) == byte);
                        assert((j - va) as int == k as int);
                    } else {
                        assert(pre.mem(j) == ((w as int) / pow256((j - va) as int)) % 256);
                        assert(pre.mapped(j));
                        assert(self.mem(j) == pre.mem(j));
                    }
                };
            }
            k = k + 1;
        }
        proof {
            lemma_u64_digits(w);
            assert(self.word_at(va) == w);
        }
    }
}

/// `256^k` for the eight byte positions of a word.
pub open spec fn pow256(k: int) -> int
    decreases k,
{
    if k <= 0 {
        1
    } else {
        256 * pow256(k - 1)
    }
}

/// A word is the sum of its eight base-256 digits.
proof fn lemma_u64_digits(w: u64)
    ensures
        w == ((w as int) / pow256(0)) % 256 + 0x100 * (((w as int) / pow256(1)) % 256) + 0x1_0000
            * (((w as int) / pow256(2)) % 256) + 0x100_0000 * (((w as int) / pow256(3)) % 256)
            + 0x1_0000_0000 * (((w as int) / pow256(4)) % 256) + 0x100_0000_0000 * (((w as int)
            / pow256(5)) % 256) + 0x1_0000_0000_0000 * (((w as int) / pow256(6)) % 256)
            + 0x100_0000_0000_0000 * (((w as int) / pow256(7)) % 256),
{
    let x = w as int;
    assert(pow256(1) == 0x100 && pow256(2) == 0x1_0000 && pow256(3) == 0x100_0000 && pow256(4)
        == 0x1_0000_0000 && pow256(5) == 0x100_0000_0000 && pow256(6) == 0x1_0000_0000_0000
        && pow256(7) == 0x100_0000_0000_0000) by {
        reveal_with_fuel(pow256, 9);
    };
    vstd::arithmetic::div_mod::lemma_fundamental_div_mod(x, 0x100);
    vstd::arithmetic::div_mod::lemma_fundamental_div_mod(x / 0x100, 0x100);
    vstd::arithmetic::div_mod::lemma_fundamental_div_mod(x / 0x1_0000, 0x100);
    vstd::arithmetic::div_mod::lemma_fundamental_div_mod(x / 0x100_0000, 0x100);
    vstd::arithmetic::div_mod::lemma_fundamental_div_mod(x / 0x1_0000_0000, 0x100);
    vstd::arithmetic::div_mod::lemma_fundamental_div_mod(x / 0x100_0000_0000, 0x100);
    vstd::arithmetic::div_mod::lemma_fundamental_div_mod(x / 0x1_0000_0000_0000, 0x100);
    vstd::arithmetic::div_mod::lemma_div_denominator(x, 0x100, 0x100);
    vstd::arithmetic::div_mod::lemma_div_denominator(x, 0x1_0000, 0x100);
    vstd::arithmetic::div_mod::lemma_div_denominator(x, 0x100_0000, 0x100);
    vstd::arithmetic::div_mod::lemma_div_denominator(x, 0x1_0000_0000, 0x100);
    vstd::arithmetic::div_mod::lemma_div_denominator(x, 0x100_0000_0000, 0x100);
    vstd::arithmetic::div_mod::lemma_div_denominator(x, 0x1_0000_0000_0000, 0x100);
    vstd::arithmetic::div_mod::lemma_div_is_ordered(x, 0xffff_ffff_ffff_ffff, 0x100_0000_0000_0000);
    assert(x / 0x100_0000_0000_0000 <= 0xff);
    assert(x == x % 0x100 + 0x100 * ((x / 0x100) % 0x100) + 0x1_0000 * (x / 0x1_0000));
    assert(x == x % 0x100 + 0x100 * ((x / 0x100) % 0x100) + 0x1_0000 * ((x / 0x1_0000) % 0x100)
        + 0x100_0000 * (x / 0x100_0000));
    assert(x == x % 0x100 + 0x100 * ((x / 0x100) % 0x100) + 0x1_0000 * ((x / 0x1_0000) % 0x100)
        + 0x100_0000 * ((x / 0x100_0000) % 0x100) + 0x1_0000_0000 * (x / 0x1_0000_0000));
    assert(x == x % 0x100 + 0x100 * ((x / 0x100) % 0x100) + 0x1_0000 * ((x / 0x1_0000) % 0x100)
        + 0x100_0000 * ((x / 0x100_0000) % 0x100) + 0x1_0000_0000 * ((x / 0x1_0000_0000) % 0x100)
        + 0x100_0000_0000 * (x / 0x100_0000_0000));
    assert(x == x % 0x100 + 0x100 * ((x / 0x100) % 0x100) + 0x1_0000 * ((x / 0x1_0000) % 0x100)
        + 0x100_0000 * ((x / 0x100_0000) % 0x100) + 0x1_0000_0000 * ((x / 0x1_0000_0000) % 0x100)
        + 0x100_0000_0000 * ((x / 0x100_0000_0000) % 0x100) + 0x1_0000_0000_0000 * (x
        / 0x1_0000_0000_0000));
    assert(x == x % 0x100 + 0x100 * ((x / 0x100) % 0x100) + 0x1_0000 * ((x / 0x1_0000) % 0x100)
        + 0x100_0000 * ((x / 0x100_0000) % 0x100) + 0x1_0000_0000 * ((x / 0x1_0000_0000) % 0x100)
        + 0x100_0000_0000 * ((x / 0x100_0000_0000) % 0x100) + 0x1_0000_0000_0000 * ((x
        / 0x1_0000_0000_0000) % 0x100) + 0x100_0000_0000_0000 * (x / 0x100_0000_0000_0000));
    assert((x / 0x100_0000_0000_0000) % 0x100 == x / 0x100_0000_0000_0000);
}


impl AddressSpace {
    /// Write consecutive words starting at `base_va`, least-significant byte
    /// first, one word every eight bytes.
    #[verifier::rlimit(100)]
    pub fn write_words(&mut self, base_va: u64, ws: &Vec<u64>)
        requires
            old(self).wf(),
            base_va + 8 * ws@.len() <= VA_LIMIT,
            forall|x: u64| base_va <= x < base_va + 8 * ws@.len() ==> old(self).mapped(x),
        ensures
            final(self).wf(),
            forall|j: int|
                0 <= j < ws@.len() ==> #[trigger] final(self).word_at((base_va + 8 * j) as u64)
                    == ws@[j],
            forall|x: u64| final(self).l0_entry(x) == old(self).l0_entry(x),
            forall|x: u64| final(self).superpage_at(x) == old(self).superpage_at(x),
            forall|x: u64|
                x < VA_LIMIT && !(base_va <= x < base_va + 8 * ws@.len()) && old(self).mapped(x)
                    ==> final(self).mem(x) == old(self).mem(x),
            final(self).alloc_count() == old(self).alloc_count(),
            final(self).is_active() == old(self).is_active(),
            final(self).heap_end() == old(self).heap_end(),
            final(self).heap_min() == old(self).heap_min(),
            final(self).heap_max() == old(self).heap_max(),
    {
        let ghost start = *self;
        let mut i: usize = 0;
        while i < ws.len()
            invariant
                self.wf(),
                i <= ws@.len(),
                base_va + 8 * ws@.len() <= VA_LIMIT,
                forall|x: u64| base_va <= x < base_va + 8 * ws@.len() ==> self.mapped(x),
                forall|j: int|
                    0 <= j < i ==> #[trigger] self.word_at((base_va + 8 * j) as u64) == ws@[j],
                forall|x: u64| self.l0_entry(x) == start.l0_entry(x),
                forall|x: u64| self.superpage_at(x) == start.superpage_at(x),
                forall|x: u64|
                    x < VA_LIMIT && !(base_va <= x < base_va + 8 * ws@.len()) && start.mapped(x)
                        ==> self.mem(x) == start.mem(x),
                self.alloc_count() == start.alloc_count(),
                self.is_active() == start.is_active(),
                self.heap_end() == start.heap_end(),
                self.heap_min() == start.heap_min(),
                self.heap_max() == start.heap_max(),
            decreases ws@.len() - i,
        {
            let va: u64 = base_va + 8 * (i as u64);
            let ghost pre = *self;
            proof {
                assert(va + 8 <= base_va + 8 * ws@.len());
                assert forall|k: u64| va <= k < va + 8 implies self.mapped(k) by {};
            }
            self.write_word(va, ws[i]);
            proof {
                assert forall|x: u64|
                    base_va <= x < base_va + 8 * ws@.len() implies self.mapped(x) by {
                    assert(pre.mapped(x));
                    assert(self.l0_entry(x) == pre.l0_entry(x));
                };
                assert forall|j: int|
                    0 <= j < i + 1 implies #[trigger] self.word_at((base_va + 8 * j) as u64)
                    == ws@[j] by {
                    if j < i {
                        let wv = (base_va + 8 * j) as u64;
                        assert(pre.word_at(wv) == ws@[j]);
                        assert(wv + 7 < va);
                        assert(self.mem(wv) == pre.mem(wv));
                        assert(self.mem((wv + 1) as u64) == pre.mem((wv + 1) as u64));
                        assert(self.mem((wv + 2) as u64) == pre.mem((wv + 2) as u64));
                        assert(self.mem((wv + 3) as u64) == pre.mem((wv + 3) as u64));
                        assert(self.mem((wv + 4) as u64) == pre.mem((wv + 4) as u64));
                        assert(self.mem((wv + 5) as u64) == pre.mem((wv + 5) as u64));
                        assert(self.mem((wv + 6) as u64) == pre.mem((wv + 6) as u64));
                        assert(self.mem((wv + 7) as u64) == pre.mem((wv + 7) as u64));
                    }
                };
            }
            i = i + 1;
        }
    }

    /// Copy a byte string to `va`.
    pub fn write_bytes(&mut self, va: u64, bytes: &Vec<u8>)
        requires
            old(self).wf(),
            va + bytes@.len() <= VA_LIMIT,
            forall|x: u64| va <= x < va + bytes@.len() ==> old(self).mapped(x),
        ensures
            final(self).wf(),
            forall|j: int|
                0 <= j < bytes@.len() ==> #[trigger] final(self).mem((va + j) as u64) == bytes@[j],
            forall|x: u64| final(self).l0_entry(x) == old(self).l0_entry(x),
            forall|x: u64| final(self).superpage_at(x) == old(self).superpage_at(x),
            forall|x: u64|
                x < VA_LIMIT && !(va <= x < va + bytes@.len()) && old(self).mapped(x)
                    ==> final(self).mem(x) == old(self).mem(x),
            final(self).alloc_count() == old(self).alloc_count(),
            final(self).is_active() == old(self).is_active(),
            final(self).heap_end() == old(self).heap_end(),
            final(self).heap_min() == old(self).heap_min(),
            final(self).heap_max() == old(self).heap_max(),
    {
        let ghost start = *self;
        let mut j: usize = 0;
        proof {
            assert(bytes@.len() == bytes.len());
        }
        while j < bytes.len()
            invariant
                self.wf(),
                j <= bytes@.len(),
                va + bytes@.len() <= VA_LIMIT,
                bytes@.len() <= usize::MAX,
                forall|x: u64| va <= x < va + bytes@.len() ==> self.mapped(x),
                forall|k: int| 0 <= k < j ==> #[trigger] self.mem((va + k) as u64) == bytes@[k],
                forall|x: u64| self.l0_entry(x) == start.l0_entry(x),
                forall|x: u64| self.superpage_at(x) == start.superpage_at(x),
                forall|x: u64|
                    x < VA_LIMIT && !(va <= x < va + bytes@.len()) && start.mapped(x) ==> self.mem(
                        x,
                    ) == start.mem(x),
                self.alloc_count() == start.alloc_count(),
                self.is_active() == start.is_active(),
                self.heap_end() == start.heap_end(),
                self.heap_min() == start.heap_min(),
                self.heap_max() == start.heap_max(),
            decreases bytes@.len() - j,
        {
            let ghost pre = *self;
            self.write_byte(va + (j as u64), bytes[j]);
            proof {
                let tv = (va + j) as u64;
                assert forall|x: u64|
                    x < VA_LIMIT && x != tv && pre.mapped(x) implies self.mem(x) == pre.mem(
                    x,
                ) by {
                    if same_page(x, tv) && (x as int) % 4096 == (tv as int) % 4096 {
                        lemma_same_page_eq(x, tv);
                    }
                };
                assert forall|x: u64| va <= x < va + bytes@.len() implies self.mapped(x) by {
                    assert(pre.mapped(x));
                    assert(self.l0_entry(x) == pre.l0_entry(x));
                };
                assert forall|k: int|
                    0 <= k < j + 1 implies #[trigger] self.mem((va + k) as u64) == bytes@[k] by {
                    if k < j {
                        assert(pre.mem((va + k) as u64) == bytes@[k]);
                        assert(pre.mapped((va + k) as u64));
                        assert((va + k) as u64 != tv);
                    }
                };
            }
            j = j + 1;
        }
    }
}

/// A fresh node: 512 invalid entries.
fn zero_node() -> (r: Vec<u64>)
    ensures
        r@.len() == 512,
        forall|k: int| 0 <= k < 512 ==> r@[k] == 0,
{
    let mut v: Vec<u64> = Vec::new();
    let mut k: usize = 0;
    while k < 512
        invariant
            k <= 512,
            v@.len() == k,
            forall|j: int| 0 <= j < k ==> v@[j] == 0,
        decreases 512 - k,
    {
        v.push(0);
        k = k + 1;
    }
    v
}

/// A fresh zero-initialized data page.
fn zero_page() -> (r: Vec<u8>)
    ensures
        r@.len() == PAGE_SIZE,
        forall|k: int| 0 <= k < PAGE_SIZE ==> r@[k] == 0,
{
    let mut v: Vec<u8> = Vec::new();
    let mut k: usize = 0;
    while k < 4096
        invariant
            k <= 4096,
            v@.len() == k,
            forall|j: int| 0 <= j < k ==> v@[j] == 0,
        decreases 4096 - k,
    {
        v.push(0);
        k = k + 1;
    }
    v
}

} // verus!
