//! Loading a position-independent 64-bit ELF image into an address space.
//!
//! The header and program-header table are parsed directly from the image
//! bytes; every loadable segment is materialized by mapping the page-aligned
//! covering range, copying the file bytes, and leaving the remainder of the
//! memory size zero.  Validation runs to completion before the first page is
//! mapped, so a rejected image leaves the address space untouched.

use vstd::prelude::*;
use crate::addr_space::{AddressSpace, VA_LIMIT, ARENA_CAP, same_page};
use crate::syscall::page_round_up;

verus! {

/// Program-header type of a loadable segment.
pub const PT_LOAD: u32 = 1;

/// A little-endian 16-bit value at `off`.
pub open spec fn le16(b: Seq<u8>, off: int) -> int {
    b[off] + 0x100 * b[off + 1]
}

/// A little-endian 32-bit value at `off`.
pub open spec fn le32(b: Seq<u8>, off: int) -> int {
    le16(b, off) + 0x1_0000 * le16(b, off + 2)
}

/// A little-endian 64-bit value at `off`.
pub open spec fn le64(b: Seq<u8>, off: int) -> int {
    le32(b, off) + 0x1_0000_0000 * le32(b, off + 4)
}

/// The declared entry point.
#[verifier::opaque]
pub open spec fn e_entry(b: Seq<u8>) -> int {
    le64(b, 24)
}

/// Offset of the program-header table.
#[verifier::opaque]
pub open spec fn e_phoff(b: Seq<u8>) -> int {
    le64(b, 32)
}

/// Size of one program header.
pub open spec fn e_phentsize(b: Seq<u8>) -> int {
    le16(b, 54)
}

/// Number of program headers.
#[verifier::opaque]
pub open spec fn e_phnum(b: Seq<u8>) -> int {
    le16(b, 56)
}

/// A 64-bit position-independent ELF header with the standard 56-byte
/// program headers.
pub open spec fn elf_header_ok(b: Seq<u8>) -> bool {
    &&& b.len() >= 64
    &&& b[0] == 0x7f
    &&& b[1] == 0x45
    &&& b[2] == 0x4c
    &&& b[3] == 0x46
    &&& b[4] == 2
    &&& le16(b, 16) == 3
    &&& e_phentsize(b) == 56
}

/// The header is sound and the whole program-header table lies inside the
/// image.
pub open spec fn header_and_bounds(b: Seq<u8>) -> bool {
    elf_header_ok(b) && e_phoff(b) + 56 * e_phnum(b) <= b.len()
}

/// Start of the `i`-th program header.
pub open spec fn ph_at(b: Seq<u8>, i: int) -> int {
    e_phoff(b) + 56 * i
}

#[verifier::opaque]
pub open spec fn p_type(b: Seq<u8>, i: int) -> int {
    le32(b, ph_at(b, i))
}

#[verifier::opaque]
pub open spec fn p_offset(b: Seq<u8>, i: int) -> int {
    le64(b, ph_at(b, i) + 8)
}

#[verifier::opaque]
pub open spec fn p_vaddr(b: Seq<u8>, i: int) -> int {
    le64(b, ph_at(b, i) + 16)
}

#[verifier::opaque]
pub open spec fn p_filesz(b: Seq<u8>, i: int) -> int {
    le64(b, ph_at(b, i) + 32)
}

#[verifier::opaque]
pub open spec fn p_memsz(b: Seq<u8>, i: int) -> int {
    le64(b, ph_at(b, i) + 40)
}

pub open spec fn is_load(b: Seq<u8>, i: int) -> bool {
    p_type(b, i) == PT_LOAD
}

/// Some loadable segment declares more file bytes than memory bytes.
pub open spec fn has_corrupt(b: Seq<u8>) -> bool {
    exists|i: int|
        0 <= i < e_phnum(b) && is_load(b, i) && p_filesz(b, i) > p_memsz(b, i)
}

/// First page of the covering range of segment `i` loaded at `base`.
pub open spec fn seg_lo(b: Seq<u8>, i: int, base: int) -> int {
    base + p_vaddr(b, i) - p_vaddr(b, i) % 4096
}

/// One past the covering range of segment `i` loaded at `base`.
pub open spec fn seg_hi(b: Seq<u8>, i: int, base: int) -> int {
    base + page_round_up(p_vaddr(b, i) + p_memsz(b, i))
}

/// Every loadable segment has its file bytes inside the image, fits the
/// window `[base, limit)`, and the covering page ranges come in ascending,
/// pairwise disjoint order; the relocated entry point fits a word.
pub open spec fn placeable(b: Seq<u8>, base: int, limit: int) -> bool {
    &&& forall|i: int|
        0 <= i < e_phnum(b) && #[trigger] is_load(b, i) ==> p_offset(b, i) + p_filesz(b, i)
            <= b.len() && seg_hi(b, i, base) <= limit
    &&& forall|i: int, j: int|
        0 <= i < j < e_phnum(b) && #[trigger] is_load(b, i) && #[trigger] is_load(b, j)
            ==> seg_hi(b, i, base) <= seg_lo(b, j, base)
    &&& e_entry(b) + base <= u64::MAX
}

/// The highest covering-range end over the first `n` loadable segments, or
/// zero if there is none.
pub open spec fn max_extent(b: Seq<u8>, base: int, n: int) -> int
    decreases n,
{
    if n <= 0 {
        0
    } else {
        let m = max_extent(b, base, n - 1);
        if is_load(b, n - 1) && seg_hi(b, n - 1, base) > m {
            seg_hi(b, n - 1, base)
        } else {
            m
        }
    }
}

/// An image loads cleanly at `base` within `[base, limit)`.
pub open spec fn image_loadable(b: Seq<u8>, base: int, limit: int) -> bool {
    header_and_bounds(b) && !has_corrupt(b) && placeable(b, base, limit)
}


/// All program-header fields are 64-bit machine words.
pub open spec fn fields_bounded(b: Seq<u8>) -> bool {
    forall|i: int|
        0 <= i < e_phnum(b) ==> 0 <= #[trigger] p_vaddr(b, i) <= u64::MAX && 0 <= p_memsz(b, i)
            <= u64::MAX && 0 <= p_filesz(b, i) <= u64::MAX && 0 <= p_offset(b, i) <= u64::MAX
}

/// The fields of a well-formed program-header table are machine words.
pub proof fn lemma_fields_bounded(b: Seq<u8>)
    requires
        header_and_bounds(b),
    ensures
        fields_bounded(b),
        0 <= e_entry(b) <= u64::MAX,
        0 <= e_phnum(b) < 0x1_0000,
        0 <= e_phoff(b),
{
    lemma_le_bounds(b);
    reveal(e_entry);
    reveal(e_phoff);
    reveal(e_phnum);
    assert forall|i: int|
        0 <= i < e_phnum(b) implies 0 <= #[trigger] p_vaddr(b, i) <= u64::MAX && 0 <= p_memsz(
        b,
        i,
    ) <= u64::MAX && 0 <= p_filesz(b, i) <= u64::MAX && 0 <= p_offset(b, i) <= u64::MAX by {
        reveal(p_vaddr);
        reveal(p_memsz);
        reveal(p_filesz);
        reveal(p_offset);
        assert(56 * i + 56 <= 56 * e_phnum(b)) by (nonlinear_arith)
            requires
                i + 1 <= e_phnum(b),
        ;
    };
}

/// The maximum extent covers the covering range of every loadable segment
/// among the first `n`, and is page-aligned.
pub proof fn lemma_max_extent_covers(b: Seq<u8>, base: u64, n: int)
    requires
        base % 4096 == 0,
        0 <= n <= e_phnum(b),
        fields_bounded(b),
    ensures
        forall|k: int|
            0 <= k < n && #[trigger] is_load(b, k) ==> seg_hi(b, k, base as int) <= max_extent(
                b,
                base as int,
                n,
            ),
        max_extent(b, base as int, n) % 4096 == 0,
        0 <= max_extent(b, base as int, n),
    decreases n,
{
    if n > 0 {
        lemma_max_extent_covers(b, base, n - 1);
        if is_load(b, n - 1) {
            lemma_page_round_up_wide(p_vaddr(b, n - 1) + p_memsz(b, n - 1));
            lemma_aligned_diff(0, base as int);
            assert(seg_hi(b, n - 1, base as int) % 4096 == 0) by {
                vstd::arithmetic::div_mod::lemma_add_mod_noop(
                    base as int,
                    page_round_up(p_vaddr(b, n - 1) + p_memsz(b, n - 1)),
                    4096,
                );
            };
        }
    }
}

/// A well-formed image whose entry point lies inside a loadable segment is
/// entered inside the loaded window: the relocated entry point falls in
/// `[base, max_extent)`, and the page-aligned maximum extent reaches past
/// every segment's end.
pub proof fn lemma_entry_in_image(b: Seq<u8>, base: u64, limit: u64, i: int)
    requires
        image_loadable(b, base as int, limit as int),
        base % 4096 == 0,
        base <= limit <= VA_LIMIT,
        0 <= i < e_phnum(b),
        is_load(b, i),
        p_vaddr(b, i) <= e_entry(b) < p_vaddr(b, i) + p_memsz(b, i),
    ensures
        base <= e_entry(b) + base < max_extent(b, base as int, e_phnum(b)),
        max_extent(b, base as int, e_phnum(b)) % 4096 == 0,
        forall|k: int|
            0 <= k < e_phnum(b) && #[trigger] is_load(b, k) ==> base + p_vaddr(b, k) + p_memsz(
                b,
                k,
            ) <= max_extent(b, base as int, e_phnum(b)),
{
    lemma_fields_bounded(b);
    lemma_max_extent_covers(b, base, e_phnum(b));
    lemma_page_round_up_wide(p_vaddr(b, i) + p_memsz(b, i));
    assert(e_entry(b) + base < seg_hi(b, i, base as int));
    assert forall|k: int|
        0 <= k < e_phnum(b) && #[trigger] is_load(b, k) implies base + p_vaddr(b, k) + p_memsz(
        b,
        k,
    ) <= max_extent(b, base as int, e_phnum(b)) by {
        lemma_page_round_up_wide(p_vaddr(b, k) + p_memsz(b, k));
        assert(seg_hi(b, k, base as int) <= max_extent(b, base as int, e_phnum(b)));
    };
}


/// The declared entry point of an image.
pub fn image_entry(data: &Vec<u8>) -> (r: u64)
    requires
        data@.len() >= 64,
    ensures
        r == e_entry(data@),
{
    proof {
        reveal(e_entry);
        lemma_le_bounds(data@);
    }
    read_u64(data, 24)
}

/// The program-header table offset of an image.
pub fn image_phoff(data: &Vec<u8>) -> (r: u64)
    requires
        data@.len() >= 64,
    ensures
        r == e_phoff(data@),
{
    proof {
        reveal(e_phoff);
        lemma_le_bounds(data@);
    }
    read_u64(data, 32)
}

/// The program-header count of an image.
pub fn image_phnum(data: &Vec<u8>) -> (r: u16)
    requires
        data@.len() >= 64,
    ensures
        r == e_phnum(data@),
{
    proof {
        reveal(e_phnum);
        lemma_le_bounds(data@);
    }
    read_u16(data, 56)
}

/// Why an image was rejected.
#[derive(Clone, Copy, Debug, PartialEq, Eq, Structural)]
pub enum ElfError {
    /// The header is malformed, the image is not position-independent, or a
    /// segment does not fit the image or its load window.
    InvalidImage,
    /// A loadable segment declares more file bytes than memory bytes.
    CorruptSegment,
}

/// A parsed program header.
pub struct Segment {
    pub p_type: u32,
    pub p_offset: u64,
    pub p_vaddr: u64,
    pub p_filesz: u64,
    pub p_memsz: u64,
}

fn read_u16(data: &Vec<u8>, off: usize) -> (r: u16)
    requires
        off + 2 <= data@.len(),
    ensures
        r == le16(data@, off as int),
{
    proof {
        assert(data@.len() == data.len());
    }
    (data[off] as u16) + (data[off + 1] as u16) * 0x100
}

fn read_u32(data: &Vec<u8>, off: usize) -> (r: u32)
    requires
        off + 4 <= data@.len(),
    ensures
        r == le32(data@, off as int),
{
    proof {
        assert(data@.len() == data.len());
        lemma_le_bounds(data@);
    }
    (read_u16(data, off) as u32) + (read_u16(data, off + 2) as u32) * 0x1_0000
}

fn read_u64(data: &Vec<u8>, off: usize) -> (r: u64)
    requires
        off + 8 <= data@.len(),
    ensures
        r == le64(data@, off as int),
{
    proof {
        assert(data@.len() == data.len());
        lemma_le_bounds(data@);
    }
    (read_u32(data, off) as u64) + (read_u32(data, off + 4) as u64) * 0x1_0000_0000
}

/// Parse the program-header table.
fn parse_phdrs(data: &Vec<u8>) -> (r: Vec<Segment>)
    requires
        header_and_bounds(data@),
    ensures
        r@.len() == e_phnum(data@),
        forall|i: int|
            0 <= i < r@.len() ==> (#[trigger] r@[i]).p_type == p_type(data@, i) && r@[i].p_offset
                == p_offset(data@, i) && r@[i].p_vaddr == p_vaddr(data@, i) && r@[i].p_filesz
                == p_filesz(data@, i) && r@[i].p_memsz == p_memsz(data@, i),
{
    let phoff: u64 = read_u64(data, 32);
    let phnum: u16 = read_u16(data, 56);
    let mut segs: Vec<Segment> = Vec::new();
    let mut i: usize = 0;
    proof {
        lemma_le_bounds(data@);
        assert(data@.len() == data.len());
        reveal(e_phoff);
        reveal(e_phnum);
        assert(phoff == e_phoff(data@));
        assert(phnum == e_phnum(data@));
        assert(0 <= e_phoff(data@));
    }
    while i < phnum as usize
        invariant
            header_and_bounds(data@),
            phoff == e_phoff(data@),
            phnum == e_phnum(data@),
            e_phoff(data@) + 56 * e_phnum(data@) <= data@.len(),
            0 <= e_phoff(data@),
            i <= phnum as usize,
            segs@.len() == i,
            data@.len() <= usize::MAX,
            forall|k: int|
                0 <= k < i ==> (#[trigger] segs@[k]).p_type == p_type(data@, k) && segs@[k].p_offset
                    == p_offset(data@, k) && segs@[k].p_vaddr == p_vaddr(data@, k)
                    && segs@[k].p_filesz == p_filesz(data@, k) && segs@[k].p_memsz == p_memsz(
                    data@,
                    k,
                ),
        decreases phnum as int - i,
    {
        proof {
            assert(56 * (i + 1) <= 56 * e_phnum(data@)) by (nonlinear_arith)
                requires
                    i + 1 <= e_phnum(data@),
            ;
        }
        let at: usize = (phoff as usize) + 56 * i;
        proof {
            assert(at as int == ph_at(data@, i as int));
        }
        let seg = Segment {
            p_type: read_u32(data, at),
            p_offset: read_u64(data, at + 8),
            p_vaddr: read_u64(data, at + 16),
            p_filesz: read_u64(data, at + 32),
            p_memsz: read_u64(data, at + 40),
        };
        proof {
            reveal(p_type);
            reveal(p_offset);
            reveal(p_vaddr);
            reveal(p_filesz);
            reveal(p_memsz);
            assert(seg.p_type == p_type(data@, i as int));
            assert(seg.p_offset == p_offset(data@, i as int));
            assert(seg.p_vaddr == p_vaddr(data@, i as int));
            assert(seg.p_filesz == p_filesz(data@, i as int));
            assert(seg.p_memsz == p_memsz(data@, i as int));
        }
        segs.push(seg);
        i = i + 1;
    }
    segs
}

/// Map the covering page range `[lo, hi)` of one segment, copy its
/// `filesz` file bytes to `va`, and leave the rest of the range zero.
#[verifier::rlimit(50)]
fn load_segment(
    user: &mut AddressSpace,
    data: &Vec<u8>,
    off: u64,
    filesz: u64,
    va: u64,
    lo: u64,
    hi: u64,
)
    requires
        old(user).wf(),
        lo % 4096 == 0,
        hi % 4096 == 0,
        lo <= va,
        va + filesz <= hi,
        hi <= VA_LIMIT,
        off + filesz <= data@.len(),
        old(user).range_clear(lo, (hi - lo) as u64),
        old(user).alloc_count() + 3 * (((hi - lo) as int) / 4096) + 1 <= ARENA_CAP,
    ensures
        final(user).wf(),
        forall|j: int|
            0 <= j < filesz ==> #[trigger] final(user).mem((va + j) as u64) == data@[off + j],
        forall|x: u64| lo <= x < hi ==> final(user).mapped(x),
        forall|x: u64|
            lo <= x < hi && !(va <= x < va + filesz) ==> final(user).mem(x) == 0,
        forall|x: u64|
            x < VA_LIMIT && !(lo <= x < hi) ==> final(user).l0_entry(x) == old(user).l0_entry(x),
        forall|x: u64|
            x < VA_LIMIT && !(lo <= x < hi) && old(user).mapped(x) ==> final(user).mem(x) == old(
                user,
            ).mem(x),
        forall|x: u64| final(user).superpage_at(x) == old(user).superpage_at(x),
        final(user).alloc_count() <= old(user).alloc_count() + 3 * (((hi - lo) as int) / 4096),
        final(user).is_active() == old(user).is_active(),
        final(user).heap_end() == old(user).heap_end(),
        final(user).heap_min() == old(user).heap_min(),
        final(user).heap_max() == old(user).heap_max(),
{
    user.map_new(lo, hi - lo);
    let ghost zeroed = *user;
    let mut j: u64 = 0;
    proof {
        assert(data@.len() == data.len());
    }
    while j < filesz
        invariant
            user.wf(),
            j <= filesz,
            lo % 4096 == 0,
            lo <= va,
            va + filesz <= hi,
            hi <= VA_LIMIT,
            off + filesz <= data@.len(),
            data@.len() <= usize::MAX,
            forall|k: int| 0 <= k < j ==> #[trigger] user.mem((va + k) as u64) == data@[off + k],
            forall|x: u64| lo <= x < hi ==> user.mapped(x),
            forall|x: u64| lo <= x < hi && !(va <= x < va + j) ==> user.mem(x) == 0,
            forall|x: u64| user.l0_entry(x) == zeroed.l0_entry(x),
            forall|x: u64|
                x < VA_LIMIT && !(lo <= x < hi) && zeroed.mapped(x) ==> user.mem(x) == zeroed.mem(
                    x,
                ),
            forall|x: u64| user.superpage_at(x) == zeroed.superpage_at(x),
            user.alloc_count() == zeroed.alloc_count(),
            user.is_active() == zeroed.is_active(),
            user.heap_end() == zeroed.heap_end(),
            user.heap_min() == zeroed.heap_min(),
            user.heap_max() == zeroed.heap_max(),
        decreases filesz - j,
    {
        let ghost pre = *user;
        user.write_byte(va + j, data[(off + j) as usize]);
        proof {
            assert forall|x: u64| x < VA_LIMIT && x != va + j && pre.mapped(x) implies user.mem(x)
                == pre.mem(x) by {
                if same_page(x, (va + j) as u64) && (x as int) % 4096 == ((va + j) as u64 as int)
                    % 4096 {
                    crate::addr_space::lemma_same_page_eq(x, (va + j) as u64);
                }
            };
            assert(user.mem((va + j) as u64) == data@[off + j]);
            assert forall|k: int|
                0 <= k < j + 1 implies #[trigger] user.mem((va + k) as u64) == data@[off
                + k] by {
                if k < j {
                    assert(pre.mem((va + k) as u64) == data@[off + k]);
                    assert(pre.mapped((va + k) as u64));
                    assert((va + k) as u64 != (va + j) as u64);
                }
            };
            assert forall|x: u64| lo <= x < hi implies user.mapped(x) by {
                assert(pre.mapped(x));
                assert(user.l0_entry(x) == pre.l0_entry(x));
            };
            assert forall|x: u64|
                lo <= x < hi && !(va <= x < va + j + 1) implies user.mem(x) == 0 by {
                assert(pre.mapped(x));
                assert(x != va + j);
            };
        }
        j = j + 1;
    }
}


/// Geometry of loadable segment `i` once placement validation has passed:
/// its covering range is aligned, lies within the window, and contains the
/// segment's bytes.
proof fn lemma_seg_geom(b: Seq<u8>, base: u64, limit: u64, i: int)
    requires
        0 <= i < e_phnum(b),
        is_load(b, i),
        base % 4096 == 0,
        base <= limit <= VA_LIMIT,
        !has_corrupt(b),
        placeable(b, base as int, limit as int),
        0 <= p_vaddr(b, i),
        0 <= p_memsz(b, i),
        0 <= p_filesz(b, i),
        0 <= p_offset(b, i),
    ensures
        0 <= p_filesz(b, i) <= p_memsz(b, i),
        p_offset(b, i) + p_filesz(b, i) <= b.len(),
        base <= seg_lo(b, i, base as int),
        seg_lo(b, i, base as int) <= base + p_vaddr(b, i),
        base + p_vaddr(b, i) + p_memsz(b, i) <= seg_hi(b, i, base as int),
        seg_hi(b, i, base as int) <= limit,
        seg_lo(b, i, base as int) % 4096 == 0,
        seg_hi(b, i, base as int) % 4096 == 0,
        (seg_hi(b, i, base as int) - seg_lo(b, i, base as int)) % 4096 == 0,
{
    let va = p_vaddr(b, i);
    let ms = p_memsz(b, i);
    assert(is_load(b, i));
    assert(p_offset(b, i) + p_filesz(b, i) <= b.len() && seg_hi(b, i, base as int) <= limit);
    assert(p_filesz(b, i) <= p_memsz(b, i)) by {
        if p_filesz(b, i) > p_memsz(b, i) {
            assert(has_corrupt(b));
        }
    };
    vstd::arithmetic::div_mod::lemma_fundamental_div_mod(va, 4096);
    lemma_page_round_up_wide(va + ms);
    let lo = seg_lo(b, i, base as int);
    let hi = seg_hi(b, i, base as int);
    lemma_aligned_diff(base as int, lo);
    lemma_aligned_diff(base as int, hi);
    lemma_aligned_diff(lo, hi);
}

/// Carry the per-segment facts of a partially materialized image over the
/// loading of segment `i`, whose covering range lies at or above `hwm`, the
/// end of everything loaded so far.
#[verifier::rlimit(100)]
proof fn lemma_map_step(
    o: AddressSpace,
    pre: AddressSpace,
    post: AddressSpace,
    b: Seq<u8>,
    base: u64,
    limit: u64,
    i: int,
    hwm: u64,
)
    requires
        0 <= i < e_phnum(b),
        is_load(b, i),
        base % 4096 == 0,
        base <= limit <= VA_LIMIT,
        !has_corrupt(b),
        placeable(b, base as int, limit as int),
        base <= hwm <= seg_lo(b, i, base as int),
        forall|k: int|
            0 <= k <= i && #[trigger] is_load(b, k) ==> 0 <= p_vaddr(b, k) && 0 <= p_memsz(b, k)
                && 0 <= p_filesz(b, k) && 0 <= p_offset(b, k),
        forall|k: int|
            0 <= k < i && #[trigger] is_load(b, k) ==> seg_hi(b, k, base as int) <= hwm,
        forall|k: int, j: int|
            0 <= k < i && is_load(b, k) && 0 <= j < p_filesz(b, k) ==> #[trigger] pre.mem(
                (base + p_vaddr(b, k) + j) as u64,
            ) == b[p_offset(b, k) + j],
        forall|k: int, j: int|
            0 <= k < i && is_load(b, k) && p_filesz(b, k) <= j < p_memsz(b, k)
                ==> #[trigger] pre.mem((base + p_vaddr(b, k) + j) as u64) == 0,
        forall|k: int, x: u64|
            0 <= k < i && #[trigger] is_load(b, k) && seg_lo(b, k, base as int) <= x < seg_hi(
                b,
                k,
                base as int,
            ) ==> #[trigger] pre.mapped(x),
        forall|x: u64|
            x < VA_LIMIT && !(base <= x < limit) ==> pre.l0_entry(x) == o.l0_entry(x),
        forall|x: u64|
            x < VA_LIMIT && !(base <= x < limit) && o.mapped(x) ==> pre.mem(x) == o.mem(x),
        forall|j: int|
            0 <= j < p_filesz(b, i) ==> #[trigger] post.mem(
                (base + p_vaddr(b, i) + j) as u64,
            ) == b[p_offset(b, i) + j],
        forall|x: u64|
            seg_lo(b, i, base as int) <= x < seg_hi(b, i, base as int) ==> post.mapped(x),
        forall|x: u64|
            seg_lo(b, i, base as int) <= x < seg_hi(b, i, base as int) && !(base + p_vaddr(b, i)
                <= x < base + p_vaddr(b, i) + p_filesz(b, i)) ==> post.mem(x) == 0,
        forall|x: u64|
            x < VA_LIMIT && !(seg_lo(b, i, base as int) <= x < seg_hi(b, i, base as int))
                ==> post.l0_entry(x) == pre.l0_entry(x),
        forall|x: u64|
            x < VA_LIMIT && !(seg_lo(b, i, base as int) <= x < seg_hi(b, i, base as int))
                && pre.mapped(x) ==> post.mem(x) == pre.mem(x),
    ensures
        forall|k: int, j: int|
            0 <= k < i + 1 && is_load(b, k) && 0 <= j < p_filesz(b, k) ==> #[trigger] post.mem(
                (base + p_vaddr(b, k) + j) as u64,
            ) == b[p_offset(b, k) + j],
        forall|k: int, j: int|
            0 <= k < i + 1 && is_load(b, k) && p_filesz(b, k) <= j < p_memsz(b, k)
                ==> #[trigger] post.mem((base + p_vaddr(b, k) + j) as u64) == 0,
        forall|k: int, x: u64|
            0 <= k < i + 1 && #[trigger] is_load(b, k) && seg_lo(b, k, base as int) <= x < seg_hi(
                b,
                k,
                base as int,
            ) ==> #[trigger] post.mapped(x),
        forall|x: u64|
            x < VA_LIMIT && !(base <= x < limit) ==> post.l0_entry(x) == o.l0_entry(x),
        forall|x: u64|
            x < VA_LIMIT && !(base <= x < limit) && o.mapped(x) ==> post.mem(x) == o.mem(x),
{
    let lo = seg_lo(b, i, base as int);
    let hi = seg_hi(b, i, base as int);
    lemma_seg_geom(b, base, limit, i);
    assert forall|k: int| 0 <= k < i && #[trigger] is_load(b, k) implies seg_lo(b, k, base as int)
        <= base + p_vaddr(b, k) && base + p_vaddr(b, k) + p_memsz(b, k) <= seg_hi(b, k, base as int)
        && 0 <= p_filesz(b, k) <= p_memsz(b, k) && base <= seg_lo(b, k, base as int) by {
        lemma_seg_geom(b, base, limit, k);
    };
    assert forall|k: int, j: int|
        0 <= k < i + 1 && is_load(b, k) && 0 <= j < p_filesz(b, k) implies #[trigger] post.mem(
        (base + p_vaddr(b, k) + j) as u64,
    ) == b[p_offset(b, k) + j] by {
        if k < i {
            let x = (base + p_vaddr(b, k) + j) as u64;
            assert(seg_lo(b, k, base as int) <= x < seg_hi(b, k, base as int));
            assert(seg_hi(b, k, base as int) <= hwm);
            assert(!(lo <= x < hi));
            assert(pre.mapped(x));
        }
    };
    assert forall|k: int, j: int|
        0 <= k < i + 1 && is_load(b, k) && p_filesz(b, k) <= j < p_memsz(
            b,
            k,
        ) implies #[trigger] post.mem((base + p_vaddr(b, k) + j) as u64) == 0 by {
        if k < i {
            let x = (base + p_vaddr(b, k) + j) as u64;
            assert(seg_lo(b, k, base as int) <= x < seg_hi(b, k, base as int));
            assert(seg_hi(b, k, base as int) <= hwm);
            assert(!(lo <= x < hi));
            assert(pre.mapped(x));
        } else {
            let x = (base + p_vaddr(b, i) + j) as u64;
            assert(lo <= x < hi);
            assert(!(base + p_vaddr(b, i) <= x < base + p_vaddr(b, i) + p_filesz(b, i)));
        }
    };
    assert forall|k: int, x: u64|
        0 <= k < i + 1 && #[trigger] is_load(b, k) && seg_lo(b, k, base as int) <= x < seg_hi(
            b,
            k,
            base as int,
        ) implies #[trigger] post.mapped(x) by {
        if k < i {
            assert(pre.mapped(x));
            assert(seg_hi(b, k, base as int) <= hwm);
            assert(!(lo <= x < hi));
            assert(post.l0_entry(x) == pre.l0_entry(x));
        }
    };
    assert forall|x: u64|
        x < VA_LIMIT && !(base <= x < limit) implies post.l0_entry(x) == o.l0_entry(x) && (
        o.mapped(x) ==> post.mem(x) == o.mem(x)) by {
        assert(!(lo <= x < hi));
    };
}

/// Parse a position-independent ELF image and materialize its loadable
/// segments into `user` at load base `base`, within the reserved window
/// `[base, limit)`.  Returns the relocated entry point and the highest
/// page-aligned address any segment touched.  Validation finishes before the
/// first page is mapped: a rejected image leaves `user` untouched, and a
/// corrupt segment is reported before any placement flaw.
#[verifier::rlimit(100)]
pub fn map_elf(user: &mut AddressSpace, data: &Vec<u8>, base: u64, limit: u64) -> (r: Result<
    (u64, u64),
    ElfError,
>)
    requires
        old(user).wf(),
        base % 4096 == 0,
        base <= limit <= VA_LIMIT,
        old(user).range_clear(base, (limit - base) as u64),
        old(user).alloc_count() + 3 * (((limit - base) as int) / 4096) + 1 <= ARENA_CAP,
    ensures
        final(user).wf(),
        r == Err::<(u64, u64), ElfError>(ElfError::CorruptSegment) <==> header_and_bounds(data@)
            && has_corrupt(data@),
        r is Ok <==> image_loadable(data@, base as int, limit as int),
        r is Err ==> *final(user) == *old(user),
        r is Ok ==> {
            let b = data@;
            &&& r->Ok_0.0 == e_entry(b) + base
            &&& r->Ok_0.1 == max_extent(b, base as int, e_phnum(b))
            &&& forall|i: int, j: int|
                0 <= i < e_phnum(b) && is_load(b, i) && 0 <= j < p_filesz(b, i)
                    ==> #[trigger] final(user).mem((base + p_vaddr(b, i) + j) as u64) == b[p_offset(
                    b,
                    i,
                ) + j]
            &&& forall|i: int, j: int|
                0 <= i < e_phnum(b) && is_load(b, i) && p_filesz(b, i) <= j < p_memsz(b, i)
                    ==> #[trigger] final(user).mem((base + p_vaddr(b, i) + j) as u64) == 0
            &&& forall|i: int, x: u64|
                0 <= i < e_phnum(b) && #[trigger] is_load(b, i) && seg_lo(b, i, base as int) <= x
                    < seg_hi(b, i, base as int) ==> #[trigger] final(user).mapped(x)
            &&& forall|x: u64|
                x < VA_LIMIT && !(base <= x < limit) ==> final(user).l0_entry(x) == old(
                    user,
                ).l0_entry(x)
            &&& forall|x: u64|
                x < VA_LIMIT && !(base <= x < limit) && old(user).mapped(x)
                    ==> final(user).mem(x) == old(user).mem(x)
        },
        forall|x: u64| final(user).superpage_at(x) == old(user).superpage_at(x),
        final(user).alloc_count() <= old(user).alloc_count() + 3 * (((limit - base) as int) / 4096),
        final(user).is_active() == old(user).is_active(),
        final(user).heap_end() == old(user).heap_end(),
        final(user).heap_min() == old(user).heap_min(),
        final(user).heap_max() == old(user).heap_max(),
{
    let ghost b = data@;
    proof {
        assert(data@.len() == data.len());
        lemma_le_bounds(data@);
    }
    // Header validation.
    if data.len() < 64 {
        return Err(ElfError::InvalidImage);
    }
    if !(data[0] == 0x7f && data[1] == 0x45 && data[2] == 0x4c && data[3] == 0x46 && data[4] == 2) {
        return Err(ElfError::InvalidImage);
    }
    if read_u16(data, 16) != 3 || read_u16(data, 54) != 56 {
        return Err(ElfError::InvalidImage);
    }
    let phoff: u64 = read_u64(data, 32);
    let phnum: u16 = read_u16(data, 56);
    let len64: u64 = data.len() as u64;
    proof {
        reveal(e_phoff);
        reveal(e_phnum);
        assert(phoff == e_phoff(b) && phnum == e_phnum(b));
    }
    if phoff > len64 || (phnum as u64) * 56 > len64 - phoff {
        proof {
            assert(!header_and_bounds(b));
        }
        return Err(ElfError::InvalidImage);
    }
    proof {
        assert(header_and_bounds(b));
        assert(0 <= ((limit - base) as int) / 4096) by {
            vstd::arithmetic::div_mod::lemma_div_pos_is_pos((limit - base) as int, 4096);
        };
    }
    let segs = parse_phdrs(data);
    let max_addr = match validate_image(data, &segs, base, limit) {
        Ok(m) => m,
        Err(e) => {
            return Err(e);
        },
    };
    let entry_off: u64 = read_u64(data, 24);
    proof {
        reveal(e_entry);
        assert(entry_off == e_entry(b));
    }
    let entry: u64 = base + entry_off;
    proof {
        assert(placeable(b, base as int, limit as int));
        assert(image_loadable(b, base as int, limit as int));
    }
    // Materialize each loadable segment.
    let ghost o = *old(user);
    let mut hwm2: u64 = base;
    let ghost mut last2: int = -1;
    let mut i: usize = 0;
    while i < segs.len()
        invariant
            segs@.len() == e_phnum(b),
            b == data@,
            header_and_bounds(b),
            !has_corrupt(b),
            placeable(b, base as int, limit as int),
            data@.len() <= usize::MAX,
            i <= segs@.len(),
            base % 4096 == 0,
            base <= limit <= VA_LIMIT,
            o.wf(),
            o.range_clear(base, (limit - base) as u64),
            o.alloc_count() + 3 * (((limit - base) as int) / 4096) + 1 <= ARENA_CAP,
            o == *old(user),
            forall|k: int|
                0 <= k < segs@.len() ==> (#[trigger] segs@[k]).p_type == p_type(b, k)
                    && segs@[k].p_offset == p_offset(b, k) && segs@[k].p_vaddr == p_vaddr(b, k)
                    && segs@[k].p_filesz == p_filesz(b, k) && segs@[k].p_memsz == p_memsz(b, k),
            user.wf(),
            base <= hwm2 <= limit,
            hwm2 % 4096 == 0,
            -1 <= last2,
            last2 == -1 ==> hwm2 == base && forall|k: int| 0 <= k < i ==> !is_load(b, k),
            last2 >= 0 ==> 0 <= last2 < i && is_load(b, last2) && hwm2 == seg_hi(
                b,
                last2,
                base as int,
            ) && forall|k: int| last2 < k < i ==> !is_load(b, k),
            forall|k: int|
                0 <= k < i && is_load(b, k) ==> seg_hi(b, k, base as int) <= hwm2,
            forall|k: int, j: int|
                0 <= k < i && is_load(b, k) && 0 <= j < p_filesz(b, k) ==> #[trigger] user.mem(
                    (base + p_vaddr(b, k) + j) as u64,
                ) == b[p_offset(b, k) + j],
            forall|k: int, j: int|
                0 <= k < i && is_load(b, k) && p_filesz(b, k) <= j < p_memsz(b, k)
                    ==> #[trigger] user.mem((base + p_vaddr(b, k) + j) as u64) == 0,
            forall|k: int, x: u64|
                0 <= k < i && #[trigger] is_load(b, k) && seg_lo(b, k, base as int) <= x < seg_hi(
                    b,
                    k,
                    base as int,
                ) ==> #[trigger] user.mapped(x),
            forall|x: u64|
                x < VA_LIMIT && !(base <= x < limit) ==> user.l0_entry(x) == o.l0_entry(x),
            forall|x: u64|
                x < VA_LIMIT && !(base <= x < limit) && o.mapped(x) ==> user.mem(x) == o.mem(x),
            forall|x: u64| user.superpage_at(x) == o.superpage_at(x),
            user.alloc_count() <= o.alloc_count() + 3 * (((hwm2 - base) as int) / 4096),
            user.is_active() == o.is_active(),
            user.heap_end() == o.heap_end(),
            user.heap_min() == o.heap_min(),
            user.heap_max() == o.heap_max(),
        decreases segs@.len() - i,
    {
        if segs[i].p_type == PT_LOAD {
            let va = segs[i].p_vaddr;
            let ms = segs[i].p_memsz;
            let offv = segs[i].p_offset;
            let fs = segs[i].p_filesz;
            proof {
                assert(is_load(b, i as int));
                lemma_seg_geom(b, base, limit, i as int);
                lemma_page_round_up_wide(va as int + ms as int);
            }
            let vaend: u64 = va + ms;
            let hi0: u64 = ((vaend + 4095) / 4096) * 4096;
            let lo: u64 = base + (va - va % 4096);
            let hi: u64 = base + hi0;
            let ghost pre = *user;
            proof {
                assert(hi0 == page_round_up(vaend as int));
                assert(lo == seg_lo(b, i as int, base as int));
                assert(hi == seg_hi(b, i as int, base as int));
                assert(hwm2 <= lo) by {
                    if last2 >= 0 {
                        assert(is_load(b, last2) && is_load(b, i as int));
                        assert(seg_hi(b, last2, base as int) <= seg_lo(b, i as int, base as int));
                    } else {
                        assert(hwm2 == base);
                    }
                };
                assert(user.range_clear(lo, (hi - lo) as u64)) by {
                    assert forall|x: u64| lo <= x < lo + (hi - lo) implies user.path_clear(x) by {
                        assert(o.path_clear(x));
                        assert(user.superpage_at(x) == o.superpage_at(x));
                    };
                };
                assert(user.alloc_count() + 3 * (((hi - lo) as int) / 4096) + 1 <= ARENA_CAP) by {
                    lemma_div_chain(base as int, hwm2 as int, lo as int, hi as int, limit as int);
                };
            }
            load_segment(user, data, offv, fs, base + va, lo, hi);
            proof {
                assert forall|k: int|
                    0 <= k <= i as int && #[trigger] is_load(b, k) implies 0 <= p_vaddr(b, k) && 0
                    <= p_memsz(b, k) && 0 <= p_filesz(b, k) && 0 <= p_offset(b, k) by {
                    assert(segs@[k].p_vaddr == p_vaddr(b, k));
                    assert(segs@[k].p_memsz == p_memsz(b, k));
                    assert(segs@[k].p_filesz == p_filesz(b, k));
                    assert(segs@[k].p_offset == p_offset(b, k));
                };
                lemma_map_step(o, pre, *user, b, base, limit, i as int, hwm2);
                assert(user.alloc_count() <= o.alloc_count() + 3 * (((hi - base) as int)
                    / 4096)) by {
                    lemma_div_chain(base as int, hwm2 as int, lo as int, hi as int, limit as int);
                };
                last2 = i as int;
            }
            hwm2 = hi;
        }
        i = i + 1;
    }
    proof {
        assert(3 * (((hwm2 - base) as int) / 4096) <= 3 * (((limit - base) as int) / 4096)) by {
            lemma_div_chain(base as int, hwm2 as int, hwm2 as int, hwm2 as int, limit as int);
        };
    }
    Ok((entry, max_addr))
}

/// Check the placement of loadable segment `i`: file bounds, window fit, and
/// that its covering range starts at or after `hwm`, the end of the previous
/// loadable segment's range.  Returns the covering range end.
#[verifier::rlimit(100)]
fn check_seg(
    data: &Vec<u8>,
    segs: &Vec<Segment>,
    i: usize,
    base: u64,
    limit: u64,
    len64: u64,
    hwm: u64,
    Ghost(last): Ghost<int>,
) -> (r: Result<u64, ElfError>)
    requires
        header_and_bounds(data@),
        base % 4096 == 0,
        base <= limit <= VA_LIMIT,
        len64 == data@.len(),
        segs@.len() == e_phnum(data@),
        i < segs@.len(),
        is_load(data@, i as int),
        forall|k: int|
            0 <= k < segs@.len() ==> (#[trigger] segs@[k]).p_type == p_type(data@, k)
                && segs@[k].p_offset == p_offset(data@, k) && segs@[k].p_vaddr == p_vaddr(data@, k)
                && segs@[k].p_filesz == p_filesz(data@, k) && segs@[k].p_memsz == p_memsz(
                data@,
                k,
            ),
        base <= hwm <= limit,
        -1 <= last,
        last == -1 ==> hwm == base,
        last >= 0 ==> last < i && is_load(data@, last) && hwm == seg_hi(data@, last, base as int),
    ensures
        r is Err ==> r == Err::<u64, ElfError>(ElfError::InvalidImage) && !placeable(
            data@,
            base as int,
            limit as int,
        ),
        r is Ok ==> {
            let b = data@;
            &&& r->Ok_0 == seg_hi(b, i as int, base as int)
            &&& seg_hi(b, i as int, base as int) <= limit
            &&& p_offset(b, i as int) + p_filesz(b, i as int) <= b.len()
            &&& hwm <= seg_lo(b, i as int, base as int)
            &&& seg_lo(b, i as int, base as int) <= seg_hi(b, i as int, base as int)
        },
{
    let ghost b = data@;
    proof {
        assert(data@.len() == data.len());
        lemma_le_bounds(data@);
    }
    let va = segs[i].p_vaddr;
    let ms = segs[i].p_memsz;
    let offv = segs[i].p_offset;
    let fs = segs[i].p_filesz;
    if offv > len64 || fs > len64 - offv {
        proof {
            assert(is_load(b, i as int));
            assert(!placeable(b, base as int, limit as int)) by {
                if placeable(b, base as int, limit as int) {
                    assert(p_offset(b, i as int) + p_filesz(b, i as int) <= b.len());
                    assert(false);
                }
            };
        }
        return Err(ElfError::InvalidImage);
    }
    if va > limit || ms > limit {
        proof {
            assert(seg_hi(b, i as int, base as int) > limit) by {
                assert(p_vaddr(b, i as int) == va && p_memsz(b, i as int) == ms);
                lemma_page_round_up_wide(va as int + ms as int);
            };
            assert(!placeable(b, base as int, limit as int)) by {
                if placeable(b, base as int, limit as int) {
                    assert(is_load(b, i as int));
                    assert(seg_hi(b, i as int, base as int) <= limit);
                    assert(false);
                }
            };
        }
        return Err(ElfError::InvalidImage);
    }
    let vaend: u64 = va + ms;
    let hi0: u64 = ((vaend + 4095) / 4096) * 4096;
    proof {
        lemma_page_round_up_wide(vaend as int);
        assert(hi0 == page_round_up(vaend as int));
    }
    if hi0 > limit - base {
        proof {
            assert(seg_hi(b, i as int, base as int) > limit) by {
                assert(p_vaddr(b, i as int) == va && p_memsz(b, i as int) == ms);
                assert(hi0 == page_round_up(va as int + ms as int));
            };
            assert(!placeable(b, base as int, limit as int)) by {
                if placeable(b, base as int, limit as int) {
                    assert(is_load(b, i as int));
                    assert(seg_hi(b, i as int, base as int) <= limit);
                    assert(false);
                }
            };
        }
        return Err(ElfError::InvalidImage);
    }
    let lo: u64 = base + (va - va % 4096);
    let hi: u64 = base + hi0;
    proof {
        assert(lo == seg_lo(b, i as int, base as int));
        assert(hi == seg_hi(b, i as int, base as int));
        assert(lo <= base + va <= base + vaend <= hi) by {
            lemma_page_round_up_wide(vaend as int);
            vstd::arithmetic::div_mod::lemma_fundamental_div_mod(va as int, 4096);
        };
    }
    if lo < hwm {
        proof {
            assert(last >= 0 && seg_hi(b, last, base as int) > seg_lo(b, i as int, base as int));
            assert(!placeable(b, base as int, limit as int)) by {
                if placeable(b, base as int, limit as int) {
                    assert(is_load(b, last) && is_load(b, i as int));
                    assert(seg_hi(b, last, base as int) <= seg_lo(b, i as int, base as int));
                    assert(false);
                }
            };
        }
        return Err(ElfError::InvalidImage);
    }
    Ok(hi)
}

/// Check every loadable segment of a parsed image: corruption first, then
/// file bounds, window fit, and ascending disjoint placement; finally that
/// the relocated entry point fits a word.  Returns the highest covering-range
/// end.
#[verifier::rlimit(100)]
fn validate_image(data: &Vec<u8>, segs: &Vec<Segment>, base: u64, limit: u64) -> (r: Result<
    u64,
    ElfError,
>)
    requires
        header_and_bounds(data@),
        base % 4096 == 0,
        base <= limit <= VA_LIMIT,
        segs@.len() == e_phnum(data@),
        forall|k: int|
            0 <= k < segs@.len() ==> (#[trigger] segs@[k]).p_type == p_type(data@, k)
                && segs@[k].p_offset == p_offset(data@, k) && segs@[k].p_vaddr == p_vaddr(data@, k)
                && segs@[k].p_filesz == p_filesz(data@, k) && segs@[k].p_memsz == p_memsz(
                data@,
                k,
            ),
    ensures
        r == Err::<u64, ElfError>(ElfError::CorruptSegment) <==> has_corrupt(data@),
        r is Ok <==> !has_corrupt(data@) && placeable(data@, base as int, limit as int),
        r is Ok ==> r->Ok_0 == max_extent(data@, base as int, e_phnum(data@)),
{
    let ghost b = data@;
    proof {
        assert(data@.len() == data.len());
        lemma_le_bounds(data@);
    }
    let len64: u64 = data.len() as u64;
    // A corrupt segment is reported before any placement flaw.
    let mut i: usize = 0;
    while i < segs.len()
        invariant
            segs@.len() == e_phnum(b),
            b == data@,
            header_and_bounds(b),
            i <= segs@.len(),
            forall|k: int|
                0 <= k < segs@.len() ==> (#[trigger] segs@[k]).p_type == p_type(b, k)
                    && segs@[k].p_offset == p_offset(b, k) && segs@[k].p_vaddr == p_vaddr(b, k)
                    && segs@[k].p_filesz == p_filesz(b, k) && segs@[k].p_memsz == p_memsz(b, k),
            forall|k: int|
                0 <= k < i && is_load(b, k) ==> p_filesz(b, k) <= p_memsz(b, k),
        decreases segs@.len() - i,
    {
        if segs[i].p_type == PT_LOAD && segs[i].p_filesz > segs[i].p_memsz {
            proof {
                assert(is_load(b, i as int) && p_filesz(b, i as int) > p_memsz(b, i as int));
                assert(has_corrupt(b));
            }
            return Err(ElfError::CorruptSegment);
        }
        i = i + 1;
    }
    proof {
        assert(!has_corrupt(b));
    }
    // Placement: bounds, window, ascending disjoint page ranges.
    let mut hwm: u64 = base;  // end of the last covering range placed
    let ghost mut last: int = -1;  // index of the last loadable segment seen
    let mut i: usize = 0;
    while i < segs.len()
        invariant
            segs@.len() == e_phnum(b),
            b == data@,
            header_and_bounds(b),
            !has_corrupt(b),
            data@.len() <= usize::MAX,
            len64 == b.len(),
            i <= segs@.len(),
            base % 4096 == 0,
            base <= limit <= VA_LIMIT,
            forall|k: int|
                0 <= k < segs@.len() ==> (#[trigger] segs@[k]).p_type == p_type(b, k)
                    && segs@[k].p_offset == p_offset(b, k) && segs@[k].p_vaddr == p_vaddr(b, k)
                    && segs@[k].p_filesz == p_filesz(b, k) && segs@[k].p_memsz == p_memsz(b, k),
            forall|k: int|
                0 <= k < i && #[trigger] is_load(b, k) ==> p_offset(b, k) + p_filesz(b, k)
                    <= b.len() && seg_hi(b, k, base as int) <= limit,
            forall|k1: int, k2: int|
                0 <= k1 < k2 < i && #[trigger] is_load(b, k1) && #[trigger] is_load(b, k2)
                    ==> seg_hi(b, k1, base as int) <= seg_lo(b, k2, base as int),
            base <= hwm <= limit,
            hwm % 4096 == 0,
            -1 <= last,
            last == -1 ==> hwm == base && forall|k: int| 0 <= k < i ==> !is_load(b, k),
            last >= 0 ==> 0 <= last < i && is_load(b, last) && hwm == seg_hi(b, last, base as int)
                && forall|k: int| last < k < i ==> !is_load(b, k),
            forall|k: int|
                0 <= k < i && #[trigger] is_load(b, k) ==> seg_hi(b, k, base as int) <= hwm,
        decreases segs@.len() - i,
    {
        if segs[i].p_type == PT_LOAD {
            let hi = match check_seg(data, segs, i, base, limit, len64, hwm, Ghost(last)) {
                Ok(h) => h,
                Err(e) => {
                    return Err(e);
                },
            };
            let ghost lo = seg_lo(b, i as int, base as int);
            let ghost hwm0 = hwm;
            hwm = hi;
            proof {
                last = i as int;
                assert forall|k1: int, k2: int|
                    0 <= k1 < k2 < i + 1 && #[trigger] is_load(b, k1) && #[trigger] is_load(
                        b,
                        k2,
                    ) implies seg_hi(b, k1, base as int) <= seg_lo(b, k2, base as int) by {
                    if k2 == i as int {
                        assert(seg_hi(b, k1, base as int) <= hwm0);
                        assert(hwm0 <= lo);
                    }
                };
            }
        }
        i = i + 1;
    }
    let entry_off: u64 = read_u64(data, 24);
    proof {
        reveal(e_entry);
        assert(entry_off == e_entry(b));
    }
    if entry_off > u64::MAX - base {
        proof {
            assert(!placeable(b, base as int, limit as int)) by {
                if placeable(b, base as int, limit as int) {
                    assert(e_entry(b) + base <= u64::MAX);
                }
            };
        }
        return Err(ElfError::InvalidImage);
    }
    proof {
        assert(placeable(b, base as int, limit as int));
    }
    // The highest covering-range end over all loadable segments.
    let mut max_addr: u64 = 0;
    let mut i: usize = 0;
    while i < segs.len()
        invariant
            segs@.len() == e_phnum(b),
            b == data@,
            header_and_bounds(b),
            !has_corrupt(b),
            placeable(b, base as int, limit as int),
            i <= segs@.len(),
            base % 4096 == 0,
            base <= limit <= VA_LIMIT,
            forall|k: int|
                0 <= k < segs@.len() ==> (#[trigger] segs@[k]).p_type == p_type(b, k)
                    && segs@[k].p_offset == p_offset(b, k) && segs@[k].p_vaddr == p_vaddr(b, k)
                    && segs@[k].p_filesz == p_filesz(b, k) && segs@[k].p_memsz == p_memsz(b, k),
            max_addr == max_extent(b, base as int, i as int),
        decreases segs@.len() - i,
    {
        if segs[i].p_type == PT_LOAD {
            let va = segs[i].p_vaddr;
            let ms = segs[i].p_memsz;
            proof {
                assert(is_load(b, i as int));
                lemma_seg_geom(b, base, limit, i as int);
                lemma_page_round_up_wide(va as int + ms as int);
            }
            let vaend: u64 = va + ms;
            let hi: u64 = base + ((vaend + 4095) / 4096) * 4096;
            proof {
                assert(hi == seg_hi(b, i as int, base as int));
            }
            if max_addr < hi {
                max_addr = hi;
            }
        }
        i = i + 1;
    }
    Ok(max_addr)
}

/// Allocator-headroom accounting: with everything page-aligned and ordered
/// `base <= hwm <= lo <= hi <= limit`, page counts nest.
proof fn lemma_div_chain(base: int, hwm: int, lo: int, hi: int, limit: int)
    requires
        base % 4096 == 0,
        hwm % 4096 == 0,
        lo % 4096 == 0,
        hi % 4096 == 0,
        limit % 4096 == 0 || hi <= limit,
        base <= hwm <= lo <= hi <= limit,
    ensures
        (hwm - base) / 4096 + (hi - lo) / 4096 <= (hi - base) / 4096,
        (hi - base) / 4096 <= (limit - base) / 4096,
        0 <= (hwm - base) / 4096,
        0 <= (hi - lo) / 4096,
{
    vstd::arithmetic::div_mod::lemma_fundamental_div_mod_converse(
        hwm - base,
        4096,
        (hwm - base) / 4096,
        0,
    );
    vstd::arithmetic::div_mod::lemma_fundamental_div_mod(hwm - base, 4096);
    vstd::arithmetic::div_mod::lemma_fundamental_div_mod(hi - lo, 4096);
    vstd::arithmetic::div_mod::lemma_fundamental_div_mod(hi - base, 4096);
    vstd::arithmetic::div_mod::lemma_mod_adds(hwm - base, lo - hwm, 4096);
    vstd::arithmetic::div_mod::lemma_mod_adds(hi - lo, lo - base, 4096);
    vstd::arithmetic::div_mod::lemma_div_is_ordered(hi - base, limit - base, 4096);
    vstd::arithmetic::div_mod::lemma_div_is_ordered(
        (hwm - base) + (hi - lo),
        hi - base,
        4096,
    );
    vstd::arithmetic::div_mod::lemma_fundamental_div_mod_converse(
        (hwm - base) + (hi - lo),
        4096,
        (hwm - base) / 4096 + (hi - lo) / 4096,
        0,
    );
}

/// The difference of two page-aligned quantities is page-aligned.
proof fn lemma_aligned_diff(a: int, c: int)
    requires
        a % 4096 == 0,
        c % 4096 == 0,
        a <= c,
    ensures
        (c - a) % 4096 == 0,
{
    vstd::arithmetic::div_mod::lemma_fundamental_div_mod(a, 4096);
    vstd::arithmetic::div_mod::lemma_fundamental_div_mod(c, 4096);
    vstd::arithmetic::div_mod::lemma_fundamental_div_mod_converse(
        c - a,
        4096,
        c / 4096 - a / 4096,
        0,
    );
}

/// `page_round_up` on any non-negative quantity.
proof fn lemma_page_round_up_wide(x: int)
    requires
        0 <= x,
    ensures
        x <= page_round_up(x) < x + 4096,
        page_round_up(x) % 4096 == 0,
{
    let q = (x + 4095) / 4096;
    vstd::arithmetic::div_mod::lemma_fundamental_div_mod(x + 4095, 4096);
    vstd::arithmetic::div_mod::lemma_fundamental_div_mod_converse(q * 4096, 4096, q, 0);
}

/// Bytes of a segment lie inside its covering page range.
proof fn lemma_seg_contains(b: Seq<u8>, k: int, base: int, j: int)
    requires
        base % 4096 == 0,
        0 <= base,
        0 <= j < p_memsz(b, k),
        0 <= p_vaddr(b, k),
    ensures
        seg_lo(b, k, base) <= base + p_vaddr(b, k) + j < seg_hi(b, k, base),
{
    let va = p_vaddr(b, k);
    let ms = p_memsz(b, k);
    vstd::arithmetic::div_mod::lemma_fundamental_div_mod(va, 4096);
    lemma_page_round_up_wide(va + ms);
}

/// Byte values bound every little-endian field read from an image.
proof fn lemma_le_bounds(b: Seq<u8>)
    ensures
        forall|off: int| 0 <= off && off + 2 <= b.len() ==> 0 <= #[trigger] le16(b, off) < 0x1_0000,
        forall|off: int|
            0 <= off && off + 4 <= b.len() ==> 0 <= #[trigger] le32(b, off) < 0x1_0000_0000,
        forall|off: int|
            0 <= off && off + 8 <= b.len() ==> 0 <= #[trigger] le64(b, off)
                < 0x1_0000_0000_0000_0000,
{
}

} // verus!
