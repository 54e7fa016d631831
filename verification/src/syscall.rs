//! The narrow syscall surface a freshly booted process needs: vectored
//! console writes, heap adjustment, and a handful of recognized stubs,
//! dispatched by Linux-musl syscall number.
//!
//! The console transport is modelled by [`ConsoleSink`]: an in-memory sink
//! with a byte capacity that can also be marked broken, so the short-write
//! and failed-write paths of the dispatcher are part of the verified
//! behaviour.  The embedder drains the sink to the real console.

use vstd::prelude::*;
use crate::addr_space::AddressSpace;

verus! {

/// Rounding an address up to the next page boundary.
pub open spec fn page_round_up(x: int) -> int {
    ((x + 4095) / 4096) * 4096
}

proof fn lemma_page_round_up(x: int)
    requires
        0 <= x,
    ensures
        x <= page_round_up(x) < x + 4096,
        page_round_up(x) % 4096 == 0,
        x % 4096 == 0 ==> page_round_up(x) == x,
{
    let q = (x + 4095) / 4096;
    vstd::arithmetic::div_mod::lemma_fundamental_div_mod(x + 4095, 4096);
    vstd::arithmetic::div_mod::lemma_fundamental_div_mod_converse(q * 4096, 4096, q, 0);
    if x % 4096 == 0 {
        vstd::arithmetic::div_mod::lemma_fundamental_div_mod(x, 4096);
        vstd::arithmetic::div_mod::lemma_fundamental_div_mod_converse(
            x + 4095,
            4096,
            x / 4096,
            4095,
        );
    }
}

/// One element of a vectored write, in the guest's calling convention: a
/// guest base address and a byte count.
#[derive(Clone, Copy, Debug, PartialEq, Eq, Structural)]
#[allow(non_camel_case_types)]
pub struct c_iovec {
    pub iov_base: u64,
    pub iov_len: u64,
}

/// The console sink: bytes accepted so far, the transport's remaining
/// appetite, and whether the transport has failed outright.
pub struct ConsoleSink {
    /// Bytes the console has accepted, in order.
    pub data: Vec<u8>,
    /// Total bytes the transport will ever accept.
    pub cap: u64,
    /// A broken transport refuses every write.
    pub broken: bool,
}

impl ConsoleSink {
    /// The sink never holds more than its capacity, and byte counts fit the
    /// signed return convention.
    pub open spec fn wf(self) -> bool {
        self.data@.len() <= self.cap <= 0x7fff_ffff_ffff_ffff
    }

    /// A working sink that accepts up to `cap` bytes.
    pub fn new(cap: u64) -> (r: ConsoleSink)
        requires
            cap <= 0x7fff_ffff_ffff_ffff,
        ensures
            r.wf(),
            r.data@ == Seq::<u8>::empty(),
            r.cap == cap,
            !r.broken,
    {
        ConsoleSink { data: Vec::new(), cap, broken: false }
    }

    /// A transport that fails every write.
    pub fn new_broken() -> (r: ConsoleSink)
        ensures
            r.wf(),
            r.data@ == Seq::<u8>::empty(),
            r.broken,
    {
        ConsoleSink { data: Vec::new(), cap: 0, broken: true }
    }

    /// One write call on the transport: accepts as much of `buf` as capacity
    /// allows and reports the count, or fails if the transport is broken.
    pub fn write(&mut self, buf: &Vec<u8>) -> (r: Result<usize, ()>)
        requires
            old(self).wf(),
        ensures
            final(self).wf(),
            final(self).cap == old(self).cap,
            final(self).broken == old(self).broken,
            old(self).broken ==> r == Err::<usize, ()>(()) && final(self).data@
                == old(self).data@,
            !old(self).broken ==> {
                let w = if buf@.len() <= old(self).cap - old(self).data@.len() {
                    buf@.len() as int
                } else {
                    old(self).cap - old(self).data@.len()
                };
                r == Ok::<usize, ()>(w as usize) && final(self).data@ == old(self).data@
                    + buf@.take(w)
            },
    {
        if self.broken {
            return Err(());
        }
        let room_u64: u64 = self.cap - (self.data.len() as u64);
        let want: u64 = buf.len() as u64;
        let w: usize = if want <= room_u64 {
            buf.len()
        } else {
            room_u64 as usize
        };
        let mut k: usize = 0;
        while k < w
            invariant
                k <= w,
                w <= buf@.len(),
                self.data@ == old(self).data@ + buf@.take(k as int),
                self.cap == old(self).cap,
                self.broken == old(self).broken,
                self.data@.len() + (w - k) <= self.cap,
            decreases w - k,
        {
            self.data.push(buf[k]);
            proof {
                assert(buf@.take(k + 1) == buf@.take(k as int).push(buf@[k as int]));
            }
            k = k + 1;
        }
        Ok(w)
    }
}

/// The bytes the console receives from writing `bufs` in order against
/// `room` bytes of remaining capacity: whole buffers while they fit, then
/// the fitting prefix of the first buffer that does not, which ends the
/// write-out.
pub open spec fn emitted(bufs: Seq<Seq<u8>>, room: int) -> Seq<u8>
    decreases bufs.len(),
{
    if bufs.len() == 0 {
        Seq::empty()
    } else if bufs[0].len() <= room {
        bufs[0] + emitted(bufs.subrange(1, bufs.len() as int), room - bufs[0].len())
    } else {
        bufs[0].take(room)
    }
}

proof fn lemma_emitted_len(bufs: Seq<Seq<u8>>, room: int)
    requires
        0 <= room,
    ensures
        emitted(bufs, room).len() <= room,
    decreases bufs.len(),
{
    if bufs.len() != 0 && bufs[0].len() <= room {
        lemma_emitted_len(bufs.subrange(1, bufs.len() as int), room - bufs[0].len());
    }
}

/// The views of a vector of byte buffers.
pub open spec fn buf_views(iovs: Seq<Vec<u8>>) -> Seq<Seq<u8>> {
    iovs.map_values(|b: Vec<u8>| b@)
}

/// Write each buffer in order to the console sink.  The descriptor must be
/// one of the three standard streams.  A short write stops iteration and the
/// count so far is returned; a failure before any byte was written is an
/// input/output error.
pub fn writev(fd: i32, iovs: &Vec<Vec<u8>>, sink: &mut ConsoleSink) -> (r: Result<i64, i64>)
    requires
        old(sink).wf(),
    ensures
        final(sink).wf(),
        final(sink).cap == old(sink).cap,
        final(sink).broken == old(sink).broken,
        !(0 <= fd <= 2) ==> r == Err::<i64, i64>(22) && final(sink).data@ == old(sink).data@,
        0 <= fd <= 2 && old(sink).broken && iovs@.len() > 0 ==> r == Err::<i64, i64>(5)
            && final(sink).data@ == old(sink).data@,
        0 <= fd <= 2 && (!old(sink).broken || iovs@.len() == 0) ==> {
            let out = emitted(buf_views(iovs@), old(sink).cap - old(sink).data@.len());
            r == Ok::<i64, i64>(out.len() as i64) && final(sink).data@ == old(sink).data@ + out
        },
{
    if fd < 0 || fd > 2 {
        proof {
            assert(sink.data@ == old(sink).data@);
        }
        return Err(22);
    }
    let mut total: i64 = 0;
    let mut i: usize = 0;
    let ghost views = buf_views(iovs@);
    let ghost room0 = old(sink).cap - old(sink).data@.len();
    proof {
        assert(views.skip(0) =~= views);
        assert(sink.data@.skip(old(sink).data@.len() as int) =~= Seq::<u8>::empty());
        assert(Seq::<u8>::empty() + emitted(views, room0) =~= emitted(views, room0));
        assert(sink.data@.take(old(sink).data@.len() as int) =~= sink.data@);
    }
    while i < iovs.len()
        invariant
            0 <= fd <= 2,
            sink.wf(),
            i <= iovs@.len(),
            views == buf_views(iovs@),
            room0 == old(sink).cap - old(sink).data@.len(),
            sink.cap == old(sink).cap,
            sink.broken == old(sink).broken,
            total == sink.data@.len() - old(sink).data@.len(),
            sink.data@.len() >= old(sink).data@.len(),
            old(sink).data@ == sink.data@.take(old(sink).data@.len() as int),
            sink.broken ==> sink.data@ == old(sink).data@ && i == 0,
            !sink.broken ==> emitted(views, room0) == sink.data@.skip(
                old(sink).data@.len() as int,
            ) + emitted(views.skip(i as int), old(sink).cap - sink.data@.len()),
        decreases iovs@.len() - i,
    {
        let ghost pre = *sink;
        let buf = &iovs[i];
        let res = sink.write(buf);
        proof {
            assert(views.skip(i as int)[0] == buf@);
            assert(views.skip(i as int).subrange(1, views.skip(i as int).len() as int) =~= views
                .skip(i + 1));
        }
        match res {
            Ok(bytes) => {
                proof {
                    assert(!pre.broken);
                    assert(sink.data@.take(old(sink).data@.len() as int) =~= pre.data@.take(
                        old(sink).data@.len() as int,
                    ));
                }
                total = total + (bytes as i64);
                if bytes != buf.len() {
                    proof {
                        assert(buf@.len() > pre.cap - pre.data@.len());
                        assert(emitted(views.skip(i as int), pre.cap - pre.data@.len()) == buf@
                            .take(pre.cap - pre.data@.len()));
                        assert(sink.data@.skip(old(sink).data@.len() as int) =~= pre.data@.skip(
                            old(sink).data@.len() as int,
                        ) + buf@.take(pre.cap - pre.data@.len()));
                        assert(emitted(views, room0) =~= sink.data@.skip(
                            old(sink).data@.len() as int,
                        ));
                        lemma_emitted_len(views, room0);
                    }
                    return Ok(total);
                }
                proof {
                    assert(buf@.take(buf@.len() as int) =~= buf@);
                    assert(sink.data@.skip(old(sink).data@.len() as int) =~= pre.data@.skip(
                        old(sink).data@.len() as int,
                    ) + buf@);
                }
            },
            Err(_) => {
                if total == 0 {
                    return Err(5);
                } else {
                    return Ok(total);
                }
            },
        }
        i = i + 1;
    }
    proof {
        assert(views.skip(i as int) =~= Seq::<Seq<u8>>::empty());
        assert(emitted(views.skip(i as int), old(sink).cap - sink.data@.len()) =~= Seq::<
            u8,
        >::empty());
        if !sink.broken {
            assert(emitted(views, room0) =~= sink.data@.skip(old(sink).data@.len() as int));
        }
    }
    Ok(total)
}

/// Adjust the heap end.  Below the floor nothing changes; within the mapped
/// ceiling only the end moves; above it the mapping is extended by the
/// page-rounded difference and the ceiling is raised.  Returns the resulting
/// heap end.
pub fn brk(user: &mut AddressSpace, new_brk: u64) -> (r: u64)
    requires
        old(user).wf(),
        new_brk > old(user).heap_max() ==> new_brk <= crate::addr_space::VA_LIMIT && old(
            user,
        ).range_clear(
            old(user).heap_max(),
            (page_round_up(new_brk as int) - old(user).heap_max()) as u64,
        ) && old(user).alloc_count() + 3 * ((page_round_up(new_brk as int) - old(
            user,
        ).heap_max()) / 4096) + 1 <= crate::addr_space::ARENA_CAP,
    ensures
        final(user).wf(),
        r == final(user).heap_end(),
        new_brk < old(user).heap_min() ==> final(user).heap_is(
            old(user).heap_min(),
            old(user).heap_end(),
            old(user).heap_max(),
        ) && r == old(user).heap_end(),
        old(user).heap_min() <= new_brk <= old(user).heap_max() ==> final(user).heap_is(
            old(user).heap_min(),
            new_brk,
            old(user).heap_max(),
        ) && r == new_brk,
        new_brk > old(user).heap_max() ==> final(user).heap_is(
            old(user).heap_min(),
            new_brk,
            page_round_up(new_brk as int) as u64,
        ) && r == new_brk && final(user).heap_max() >= new_brk && final(user).heap_max() % 4096
            == 0,
        new_brk > old(user).heap_max() ==> forall|x: u64|
            old(user).heap_max() <= x < page_round_up(new_brk as int) ==> final(user).mapped(x)
                && final(user).mem(x) == 0,
        forall|x: u64|
            x < crate::addr_space::VA_LIMIT && !(old(user).heap_max() <= x < page_round_up(
                new_brk as int,
            )) ==> final(user).l0_entry(x) == old(user).l0_entry(x),
        forall|x: u64|
            x < crate::addr_space::VA_LIMIT && !(old(user).heap_max() <= x < page_round_up(
                new_brk as int,
            )) && old(user).mapped(x) ==> final(user).mem(x) == old(user).mem(x),
        forall|x: u64| final(user).superpage_at(x) == old(user).superpage_at(x),
        final(user).is_active() == old(user).is_active(),
{
    proof {
        old(user).lemma_wf_heap();
    }
    if new_brk >= user.cur_brk_min() {
        if new_brk > user.cur_brk_max() {
            let old_max = user.cur_brk_max();
            let new_max: u64 = ((new_brk + 4095) / 4096) * 4096;
            proof {
                lemma_page_round_up(new_brk as int);
                assert(new_max == page_round_up(new_brk as int));
                assert(old_max % 4096 == 0);
                assert((new_max - old_max) % 4096 == 0) by {
                    let a = new_max as int;
                    let b = old_max as int;
                    vstd::arithmetic::div_mod::lemma_fundamental_div_mod(a, 4096);
                    vstd::arithmetic::div_mod::lemma_fundamental_div_mod(b, 4096);
                    vstd::arithmetic::div_mod::lemma_fundamental_div_mod_converse(
                        a - b,
                        4096,
                        a / 4096 - b / 4096,
                        0,
                    );
                };
            }
            user.map_new(old_max, new_max - old_max);
            let ghost grown = *user;
            user.set_heap_bounds(new_brk, new_max);
            proof {
                assert forall|x: u64|
                    old(user).heap_max() <= x < page_round_up(new_brk as int) implies user.mapped(
                    x,
                ) && user.mem(x) == 0 by {
                    assert(grown.mapped(x) && grown.mem(x) == 0);
                    assert(user.l0_entry(x) == grown.l0_entry(x));
                    assert(user.mem(x) == grown.mem(x));
                };
            }
        } else {
            let m = user.cur_brk_max();
            user.set_heap_bounds(new_brk, m);
        }
    }
    user.cur_brk()
}

/// Recognized but deliberately unimplemented: reports success, changes
/// nothing.
pub fn mmap(addr: u64, length: u64, prot: i64, flags: i64, fd: i64, offset: i64) -> (r: u64)
    ensures
        r == 0,
{
    let _ = (addr, length, prot, flags, fd, offset);
    0
}

/// Recognized but deliberately unimplemented: reports success, changes
/// nothing.
pub fn mprotect(addr: u64, length: u64, prot: i64) -> (r: i64)
    ensures
        r == 0,
{
    let _ = (addr, length, prot);
    0
}

/// What servicing a trap means for the caller: a value for the guest, an
/// orderly exit, or a fatal, unrecoverable condition.
pub enum SyscallOutcome {
    /// Return this value to the guest.
    Ret(i64),
    /// The guest asked to terminate.
    Exit,
    /// Unknown syscall number: a guest programming error.
    Fatal,
}

/// Table-driven dispatch of one trap.  The iovec buffers for a vectored
/// write arrive already decoded from guest memory.
pub fn axmusl_syscall_handler(
    user: &mut AddressSpace,
    sink: &mut ConsoleSink,
    n: i64,
    a0: i64,
    iovs: &Vec<Vec<u8>>,
) -> (r: SyscallOutcome)
    requires
        old(user).wf(),
        old(sink).wf(),
        n == 214 && a0 as u64 > old(user).heap_max() ==> a0 >= 0 && a0 as u64
            <= crate::addr_space::VA_LIMIT && old(user).range_clear(
            old(user).heap_max(),
            (page_round_up(a0 as int) - old(user).heap_max()) as u64,
        ) && old(user).alloc_count() + 3 * ((page_round_up(a0 as int) - old(user).heap_max())
            / 4096) + 1 <= crate::addr_space::ARENA_CAP,
    ensures
        final(user).wf(),
        final(sink).wf(),
        n == 96 ==> r == SyscallOutcome::Ret(1),
        n == 66 ==> (match writev_spec_result(a0 as i32 as int, iovs@, *old(sink)) {
            Ok(t) => r == SyscallOutcome::Ret(t),
            Err(e) => r == SyscallOutcome::Ret((-e) as i64),
        }),
        n == 66 ==> *final(user) == *old(user),
        n != 66 ==> *final(sink) == *old(sink),
        n == 214 ==> r == SyscallOutcome::Ret(final(user).heap_end() as i64),
        n == 222 ==> r == SyscallOutcome::Ret(0),
        n == 226 ==> r == SyscallOutcome::Ret(0),
        n == 29 ==> r == SyscallOutcome::Ret((-22) as i64),
        n == 57 ==> r == SyscallOutcome::Ret(0),
        n == 94 ==> r == SyscallOutcome::Exit,
        !(n == 96 || n == 66 || n == 214 || n == 222 || n == 226 || n == 29 || n == 57 || n == 94)
            ==> r == SyscallOutcome::Fatal,
        n != 214 && n != 66 ==> *final(user) == *old(user),
{
    if n == 96 {
        SyscallOutcome::Ret(1)
    } else if n == 66 {
        let res = writev(a0 as i32, iovs, sink);
        match res {
            Ok(t) => SyscallOutcome::Ret(t),
            Err(e) => SyscallOutcome::Ret(-e),
        }
    } else if n == 214 {
        let v = brk(user, a0 as u64);
        SyscallOutcome::Ret(v as i64)
    } else if n == 222 {
        SyscallOutcome::Ret(0)
    } else if n == 226 {
        SyscallOutcome::Ret(0)
    } else if n == 29 {
        SyscallOutcome::Ret(-22)
    } else if n == 57 {
        SyscallOutcome::Ret(0)
    } else if n == 94 {
        SyscallOutcome::Exit
    } else {
        SyscallOutcome::Fatal
    }
}

/// The value `writev` returns, as a function of its inputs.
pub open spec fn writev_spec_result(fd: int, iovs: Seq<Vec<u8>>, sink: ConsoleSink) -> Result<
    i64,
    i64,
> {
    if !(0 <= fd <= 2) {
        Err(22)
    } else if sink.broken && iovs.len() > 0 {
        Err(5)
    } else {
        Ok(emitted(buf_views(iovs), sink.cap - sink.data@.len()).len() as i64)
    }
}

} // verus!
