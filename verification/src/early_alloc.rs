//! A bump allocator for early boot: bytes are carved from the bottom of one
//! region and whole pages from the top, and nothing is ever returned.

use vstd::prelude::*;

verus! {

/// The early allocator over one memory region: `start` and `end` are the
/// live bounds, shrinking toward each other; the original bounds are kept
/// for accounting.
pub struct EarlyAllocator<const PAGE_SIZE: usize> {
    start: usize,
    end: usize,
    orig_start: usize,
    orig_end: usize,
}

impl<const PAGE_SIZE: usize> EarlyAllocator<PAGE_SIZE> {
    /// The live window stays inside the original region.
    pub closed spec fn wf(self) -> bool {
        self.orig_start <= self.start <= self.end <= self.orig_end
    }

    pub closed spec fn start_spec(self) -> int {
        self.start as int
    }

    pub closed spec fn end_spec(self) -> int {
        self.end as int
    }

    pub closed spec fn orig_start_spec(self) -> int {
        self.orig_start as int
    }

    pub closed spec fn orig_end_spec(self) -> int {
        self.orig_end as int
    }

    /// An allocator that owns nothing until initialized.
    pub fn new() -> (r: EarlyAllocator<PAGE_SIZE>)
        ensures
            r.wf(),
            r.start_spec() == r.end_spec(),
            r.orig_start_spec() == r.orig_end_spec(),
    {
        EarlyAllocator { start: 1, end: 1, orig_start: 1, orig_end: 1 }
    }

    /// Adopt the region `[start, start + size)`, skipping a zero start so
    /// that no allocation ever hands out the null address.
    pub fn init(&mut self, start: usize, size: usize)
        requires
            start + size <= usize::MAX,
            size >= 1,
        ensures
            final(self).wf(),
            final(self).orig_start_spec() == start,
            final(self).orig_end_spec() == start + size,
            final(self).end_spec() == start + size,
            final(self).start_spec() == if start == 0 {
                1int
            } else {
                start as int
            },
    {
        self.start = start;
        self.end = start + size;
        self.orig_end = self.end;
        self.orig_start = self.start;
        if self.start == 0 {
            self.start = self.start + 1;
        }
    }

    /// Carve `size` bytes aligned to `align` from the bottom of the region.
    /// Fails exactly when the aligned request does not fit.
    pub fn alloc_bytes(&mut self, size: usize, align: usize) -> (r: Result<usize, ()>)
        requires
            old(self).wf(),
            1 <= align,
        ensures
            final(self).wf(),
            final(self).end_spec() == old(self).end_spec(),
            final(self).orig_start_spec() == old(self).orig_start_spec(),
            final(self).orig_end_spec() == old(self).orig_end_spec(),
            (match r {
                Ok(addr) => {
                    &&& addr as int == align_up(old(self).start_spec(), align as int)
                    &&& addr % align == 0
                    &&& addr + size <= old(self).end_spec()
                    &&& final(self).start_spec() == addr + size
                },
                Err(_) => {
                    &&& *final(self) == *old(self)
                    &&& (align_up(old(self).start_spec(), align as int) + size
                        > old(self).end_spec() || align_up(old(self).start_spec(), align as int)
                        > usize::MAX || align_up(old(self).start_spec(), align as int) + size
                        > usize::MAX)
                },
            }),
    {
        proof {
            lemma_align_up(self.start as int, align as int);
        }
        let rem: usize = self.start % align;
        let pad: usize = if rem == 0 {
            0
        } else {
            align - rem
        };
        if pad > usize::MAX - self.start {
            return Err(());
        }
        let res: usize = self.start + pad;
        proof {
            assert(res as int == align_up(old(self).start_spec(), align as int)) by {
                lemma_align_up(old(self).start_spec(), align as int);
            };
        }
        if size > usize::MAX - res {
            return Err(());
        }
        let new_start: usize = res + size;
        if new_start > self.end {
            return Err(());
        }
        self.start = new_start;
        Ok(res)
    }

    /// Bytes of the original region.
    pub fn total_bytes(&self) -> (r: usize)
        requires
            self.wf(),
        ensures
            r as int == self.orig_end_spec() - self.orig_start_spec(),
    {
        self.orig_end - self.orig_start
    }

    /// Bytes consumed from the bottom.
    pub fn used_bytes(&self) -> (r: usize)
        requires
            self.wf(),
        ensures
            r as int == self.start_spec() - self.orig_start_spec(),
    {
        self.start - self.orig_start
    }

    /// Bytes still free between the two live bounds.
    pub fn available_bytes(&self) -> (r: usize)
        requires
            self.wf(),
        ensures
            r as int == self.end_spec() - self.start_spec(),
    {
        self.end - self.start
    }

    /// Carve `num_pages` whole pages, aligned to `align_pow2`, from the top
    /// of the region.  Fails exactly when the aligned request does not fit.
    pub fn alloc_pages(&mut self, num_pages: usize, align_pow2: usize) -> (r: Result<usize, ()>)
        requires
            old(self).wf(),
            1 <= align_pow2,
            align_pow2 % PAGE_SIZE == 0,
            num_pages * PAGE_SIZE <= usize::MAX,
        ensures
            final(self).wf(),
            final(self).start_spec() == old(self).start_spec(),
            final(self).orig_start_spec() == old(self).orig_start_spec(),
            final(self).orig_end_spec() == old(self).orig_end_spec(),
            (match r {
                Ok(addr) => {
                    &&& addr as int == old(self).end_spec() - old(self).end_spec() % (
                    align_pow2 as int) - align_up(num_pages * PAGE_SIZE, align_pow2 as int)
                    &&& addr >= old(self).start_spec()
                    &&& final(self).end_spec() == addr
                },
                Err(_) => *final(self) == *old(self),
            }),
    {
        proof {
            lemma_align_up((num_pages * PAGE_SIZE) as int, align_pow2 as int);
        }
        let num_bytes0: usize = num_pages * PAGE_SIZE;
        let rem: usize = num_bytes0 % align_pow2;
        let pad: usize = if rem == 0 {
            0
        } else {
            align_pow2 - rem
        };
        if pad > usize::MAX - num_bytes0 {
            return Err(());
        }
        let num_bytes: usize = num_bytes0 + pad;
        proof {
            vstd::arithmetic::div_mod::lemma_mod_decreases(self.end as nat, align_pow2 as nat);
        }
        let region_end: usize = self.end - (self.end % align_pow2);
        if num_bytes > region_end {
            return Err(());
        }
        let res: usize = region_end - num_bytes;
        if self.start > res {
            return Err(());
        }
        self.end = res;
        Ok(res)
    }

    /// Pages between the bottom live bound and the original top.
    pub fn total_pages(&self) -> (r: usize)
        requires
            self.wf(),
            PAGE_SIZE >= 1,
        ensures
            r as int == (self.orig_end_spec() - self.start_spec()) / (PAGE_SIZE as int),
    {
        (self.orig_end - self.start) / PAGE_SIZE
    }

    /// Pages consumed from the top.
    pub fn used_pages(&self) -> (r: usize)
        requires
            self.wf(),
            PAGE_SIZE >= 1,
        ensures
            r as int == (self.orig_end_spec() - self.end_spec()) / (PAGE_SIZE as int),
    {
        (self.orig_end - self.end) / PAGE_SIZE
    }

    /// Pages still free between the two live bounds.
    pub fn available_pages(&self) -> (r: usize)
        requires
            self.wf(),
            PAGE_SIZE >= 1,
        ensures
            r as int == (self.end_spec() - self.start_spec()) / (PAGE_SIZE as int),
    {
        (self.end - self.start) / PAGE_SIZE
    }
}

/// `x` rounded up to the next multiple of `align`.
pub open spec fn align_up(x: int, align: int) -> int {
    if x % align == 0 {
        x
    } else {
        x + (align - x % align)
    }
}

/// Rounding up lands on a multiple and never moves backward.
proof fn lemma_align_up(x: int, align: int)
    requires
        0 <= x,
        1 <= align,
    ensures
        x <= align_up(x, align) < x + align,
        align_up(x, align) % align == 0,
{
    vstd::arithmetic::div_mod::lemma_fundamental_div_mod(x, align);
    if x % align != 0 {
        let q = x / align;
        assert(x == align * q + x % align);
        assert(align_up(x, align) == align * q + align);
        assert(align * q + align == (q + 1) * align) by (nonlinear_arith);
        vstd::arithmetic::div_mod::lemma_fundamental_div_mod_converse(
            align_up(x, align),
            align,
            q + 1,
            0,
        );
    }
}

} // verus!
