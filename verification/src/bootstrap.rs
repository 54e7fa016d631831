//! Constructing the initial process: archive entry selection, the two image
//! loads, and the stack and auxiliary-vector contract the dynamic linker
//! expects.
//!
//! The boot archive arrives as bytes and is split into entries by the
//! archive reader; the entry named `ld.so` is the interpreter and the first
//! entry under any other name is the executable.  The executable is loaded
//! at a fixed low base, the interpreter at a fixed high base, and a stack is
//! mapped just below a fixed top; the loader's own code window is identity
//! mapped (with its high-half alias) so execution survives activation.
//! Control transfer itself is an irreversible architecture operation left to
//! the embedder; this module returns the stack pointer and entry point to
//! hand over.

use vstd::prelude::*;
use crate::addr_space::{AddressSpace, VA_LIMIT, ARENA_CAP, vpn2};
use crate::elf_image::{
    map_elf, ElfError, image_loadable, e_entry, e_phoff, e_phnum, max_extent, header_and_bounds,
    lemma_fields_bounded, lemma_max_extent_covers,
};
use crate::syscall::page_round_up;

verus! {

/// Load base of the main executable.
pub const EXEC_BASE: u64 = 0x1000_0000;

/// One past the reserved window of the main executable.
pub const EXEC_LIMIT: u64 = 0x4000_0000;

/// Load base of the dynamic linker.
pub const DYLD_BASE: u64 = 0x10_0000_0000;

/// One past the reserved window of the dynamic linker.
pub const DYLD_LIMIT: u64 = 0x11_0000_0000;

/// Top of the initial stack.
pub const STACK_TOP: u64 = 0x3f_0000_0000;

/// Bytes of stack mapped below the top.
pub const STACK_SIZE: u64 = 0x80_0000;

/// Offset of the kernel's high-half alias of physical memory.
pub const PHYS_VIRT_OFFSET: u64 = 0xffff_ffc0_0000_0000;

/// One entry of the boot archive: name, POSIX permission bits, payload.
pub struct ArchiveEntry {
    pub name: Vec<u8>,
    pub mode: u32,
    pub data: Vec<u8>,
}

/// The entries of a boot archive, in order: name, mode bits, payload.
pub uninterp spec fn archive_entries(bytes: Seq<u8>) -> Seq<(Seq<u8>, u32, Seq<u8>)>;

/// Relies on cpio_reader::iter_files: yields each archive entry's name,
/// mode bits and file contents, in archive order.
#[verifier::external_body]
fn read_archive(bytes: &Vec<u8>) -> (r: Vec<ArchiveEntry>)
    ensures
        r@.map_values(|e: ArchiveEntry| (e.name@, e.mode, e.data@)) == archive_entries(bytes@),
{
    cpio_reader::iter_files(bytes.as_slice()).map(
        |e| ArchiveEntry {
            name: e.name().as_bytes().to_vec(),
            mode: e.mode().bits(),
            data: e.file().to_vec(),
        },
    ).collect()
}

/// The views of a vector of archive entries.
pub open spec fn entries_view(es: Seq<ArchiveEntry>) -> Seq<(Seq<u8>, u32, Seq<u8>)> {
    es.map_values(|e: ArchiveEntry| (e.name@, e.mode, e.data@))
}

/// The name that identifies the dynamic linker: `ld.so`.
pub open spec fn dyld_name() -> Seq<u8> {
    seq![0x6cu8, 0x64u8, 0x2eu8, 0x73u8, 0x6fu8]
}

/// `k` is the first entry named `ld.so`.
pub open spec fn dyld_at(es: Seq<(Seq<u8>, u32, Seq<u8>)>, k: int) -> bool {
    &&& 0 <= k < es.len()
    &&& es[k].0 == dyld_name()
    &&& forall|j: int| 0 <= j < k ==> (#[trigger] es[j]).0 != dyld_name()
}

/// `k` is the first entry not named `ld.so`: the main executable.
pub open spec fn main_at(es: Seq<(Seq<u8>, u32, Seq<u8>)>, k: int) -> bool {
    &&& 0 <= k < es.len()
    &&& es[k].0 != dyld_name()
    &&& forall|j: int| 0 <= j < k ==> (#[trigger] es[j]).0 == dyld_name()
}

/// Why a boot could not be completed.  All of these are boot-fatal.
#[derive(Clone, Copy, Debug, PartialEq, Eq, Structural)]
pub enum BootError {
    /// No archive entry is named `ld.so`.
    MissingInterpreter,
    /// Every archive entry is named `ld.so`, so there is no executable.
    MissingExecutable,
    /// The executable's name would not fit on the initial stack.
    OversizedEntryName,
    /// An image was rejected by the loader.
    BadImage(ElfError),
}

/// Whether `n` spells `ld.so`.
fn is_dyld_name(n: &Vec<u8>) -> (r: bool)
    ensures
        r == (n@ == dyld_name()),
{
    proof {
        assert(n@.len() == n.len());
    }
    if n.len() != 5 {
        return false;
    }
    let r = n[0] == 0x6c && n[1] == 0x64 && n[2] == 0x2e && n[3] == 0x73 && n[4] == 0x6f;
    proof {
        if r {
            assert(n@ =~= dyld_name());
        }
    }
    r
}

/// Pick the interpreter (the first entry named `ld.so`) and the main
/// executable (the first entry under any other name) out of the archive.
pub fn select_images(entries: &Vec<ArchiveEntry>) -> (r: Result<(usize, usize), BootError>)
    ensures
        (match r {
            Ok((d, m)) => dyld_at(entries_view(entries@), d as int) && main_at(
                entries_view(entries@),
                m as int,
            ),
            Err(e) => e == BootError::MissingInterpreter || e == BootError::MissingExecutable,
        }),
        r == Err::<(usize, usize), BootError>(BootError::MissingInterpreter) <==> forall|k: int|
            0 <= k < entries_view(entries@).len() ==> (#[trigger] entries_view(entries@)[k]).0
                != dyld_name(),
        r == Err::<(usize, usize), BootError>(BootError::MissingExecutable) <==> ((exists|k: int|
            0 <= k < entries_view(entries@).len() && (#[trigger] entries_view(entries@)[k]).0
                == dyld_name()) && (forall|k: int|
            0 <= k < entries_view(entries@).len() ==> (#[trigger] entries_view(entries@)[k]).0
                == dyld_name())),
{
    let ghost es = entries_view(entries@);
    let mut d: usize = 0;
    let mut found_d = false;
    let mut i: usize = 0;
    while i < entries.len()
        invariant
            es == entries_view(entries@),
            i <= entries@.len(),
            es.len() == entries@.len(),
            !found_d ==> forall|j: int| 0 <= j < i ==> (#[trigger] es[j]).0 != dyld_name(),
            found_d ==> dyld_at(es, d as int),
        decreases entries@.len() - i,
    {
        if !found_d && is_dyld_name(&entries[i].name) {
            d = i;
            found_d = true;
        }
        i = i + 1;
    }
    if !found_d {
        return Err(BootError::MissingInterpreter);
    }
    let mut m: usize = 0;
    let mut found_m = false;
    let mut i: usize = 0;
    while i < entries.len()
        invariant
            es == entries_view(entries@),
            i <= entries@.len(),
            es.len() == entries@.len(),
            found_d && dyld_at(es, d as int),
            !found_m ==> forall|j: int| 0 <= j < i ==> (#[trigger] es[j]).0 == dyld_name(),
            found_m ==> main_at(es, m as int),
        decreases entries@.len() - i,
    {
        if !found_m && !is_dyld_name(&entries[i].name) {
            m = i;
            found_m = true;
        }
        i = i + 1;
    }
    if !found_m {
        return Err(BootError::MissingExecutable);
    }
    Ok((d, m))
}


/// Eight-byte alignment of a reserved string slot.
pub open spec fn round8(x: int) -> int {
    ((x + 7) / 8) * 8
}

proof fn lemma_round8(x: int)
    requires
        0 <= x,
    ensures
        x <= round8(x) < x + 8,
        round8(x) % 8 == 0,
{
    let q = (x + 7) / 8;
    vstd::arithmetic::div_mod::lemma_fundamental_div_mod(x + 7, 8);
    vstd::arithmetic::div_mod::lemma_fundamental_div_mod_converse(q * 8, 8, q, 0);
}

/// Where the program-name string lands on the stack.
pub open spec fn argv0_addr(name_len: int) -> int {
    STACK_TOP - round8(name_len + 1)
}

/// Where the synthetic argument string lands on the stack.
pub open spec fn argv1_addr(name_len: int) -> int {
    argv0_addr(name_len) - 8
}

/// The final stack pointer: below the strings and the eighteen pushed words.
pub open spec fn sp_addr(name_len: int) -> int {
    argv1_addr(name_len) - 144
}

/// The eighteen words above the final stack pointer, lowest first: argc and
/// the two argument pointers with their null terminator, then the auxiliary
/// vector ending in a null tag.
pub open spec fn stack_words(name_len: int, exec_entry: int, phnum: int, phdr: int) -> Seq<int> {
    seq![
        2,
        argv0_addr(name_len),
        argv1_addr(name_len),
        0,
        9,
        exec_entry,
        7,
        DYLD_BASE as int,
        6,
        4096,
        5,
        phnum,
        4,
        56,
        3,
        phdr,
        0,
        0,
    ]
}

/// Write the program name, one synthetic `--help` argument, argc, the
/// argument pointers, and the auxiliary vector onto the freshly mapped
/// stack, and return the resulting stack pointer.
#[verifier::rlimit(100)]
fn build_stack(
    user: &mut AddressSpace,
    name: &Vec<u8>,
    phdr: u64,
    phnum: u64,
    exec_entry: u64,
) -> (r: u64)
    requires
        old(user).wf(),
        name@.len() <= 4096,
        forall|x: u64|
            STACK_TOP - STACK_SIZE <= x < STACK_TOP ==> old(user).mapped(x) && old(user).mem(x)
                == 0,
    ensures
        final(user).wf(),
        r == sp_addr(name@.len() as int),
        r % 8 == 0,
        forall|j: int|
            0 <= j < 18 ==> #[trigger] final(user).word_at((r + 8 * j) as u64) == stack_words(
                name@.len() as int,
                exec_entry as int,
                phnum as int,
                phdr as int,
            )[j],
        forall|j: int|
            0 <= j < name@.len() ==> #[trigger] final(user).mem(
                (argv0_addr(name@.len() as int) + j) as u64,
            ) == name@[j],
        final(user).mem((argv0_addr(name@.len() as int) + name@.len()) as u64) == 0,
        forall|x: u64| final(user).l0_entry(x) == old(user).l0_entry(x),
        forall|x: u64| final(user).superpage_at(x) == old(user).superpage_at(x),
        forall|x: u64|
            x < VA_LIMIT && !(r <= x < STACK_TOP) && old(user).mapped(x)
                ==> final(user).mem(x) == old(user).mem(x),
        final(user).alloc_count() == old(user).alloc_count(),
        final(user).is_active() == old(user).is_active(),
        final(user).heap_end() == old(user).heap_end(),
        final(user).heap_min() == old(user).heap_min(),
        final(user).heap_max() == old(user).heap_max(),
{
    proof {
        assert(name@.len() == name.len());
        lemma_round8(name@.len() as int + 1);
    }
    let nlen: u64 = name.len() as u64;
    let argv0: u64 = STACK_TOP - ((nlen + 1 + 7) / 8) * 8;
    let argv1: u64 = argv0 - 8;
    let sp: u64 = argv1 - 144;
    proof {
        assert(argv0 == argv0_addr(nlen as int));
        assert(argv1 == argv1_addr(nlen as int));
        assert(sp == sp_addr(nlen as int));
        assert(STACK_TOP - STACK_SIZE <= sp && argv0 + nlen < STACK_TOP);
        assert(sp % 8 == 0) by {
            let rq = round8(nlen as int + 1);
            vstd::arithmetic::div_mod::lemma_fundamental_div_mod(rq, 8);
            vstd::arithmetic::div_mod::lemma_fundamental_div_mod_converse(
                STACK_TOP as int - rq - 152,
                8,
                (STACK_TOP as int - rq - 152) / 8,
                0,
            );
            vstd::arithmetic::div_mod::lemma_fundamental_div_mod_converse(
                STACK_TOP as int,
                8,
                0x7e0000000,
                0,
            );
            vstd::arithmetic::div_mod::lemma_fundamental_div_mod_converse(
                STACK_TOP as int - rq - 152,
                8,
                0x7e0000000 - rq / 8 - 19,
                0,
            );
        };
    }
    let ghost start = *user;
    user.write_bytes(argv0, name);
    let ghost after_name = *user;
    let mut help: Vec<u8> = Vec::new();
    help.push(0x2d);
    help.push(0x2d);
    help.push(0x68);
    help.push(0x65);
    help.push(0x6c);
    help.push(0x70);
    proof {
        assert(help@.len() == 6);
        assert forall|x: u64| argv1 <= x < argv1 + help@.len() implies user.mapped(x) by {
            assert(start.mapped(x));
            assert(user.l0_entry(x) == start.l0_entry(x));
        };
    }
    user.write_bytes(argv1, &help);
    let ghost after_help = *user;
    let mut ws: Vec<u64> = Vec::new();
    ws.push(2);
    ws.push(argv0);
    ws.push(argv1);
    ws.push(0);
    ws.push(9);
    ws.push(exec_entry);
    ws.push(7);
    ws.push(DYLD_BASE);
    ws.push(6);
    ws.push(4096);
    ws.push(5);
    ws.push(phnum);
    ws.push(4);
    ws.push(56);
    ws.push(3);
    ws.push(phdr);
    ws.push(0);
    ws.push(0);
    proof {
        assert(ws@.len() == 18);
        assert(sp + 8 * 18 == argv1);
        assert forall|x: u64| sp <= x < sp + 8 * ws@.len() implies user.mapped(x) by {
            assert(start.mapped(x));
            assert(user.l0_entry(x) == start.l0_entry(x));
        };
    }
    user.write_words(sp, &ws);
    proof {
        assert forall|j: int|
            0 <= j < 18 implies #[trigger] user.word_at((sp + 8 * j) as u64) == stack_words(
            nlen as int,
            exec_entry as int,
            phnum as int,
            phdr as int,
        )[j] by {
            assert(user.word_at((sp + 8 * j) as u64) == ws@[j]);
        };
        assert forall|j: int|
            0 <= j < nlen implies #[trigger] user.mem((argv0 + j) as u64) == name@[j] by {
            let x = (argv0 + j) as u64;
            assert(after_name.mem(x) == name@[j]);
            assert(start.mapped(x));
            assert(after_name.l0_entry(x) == start.l0_entry(x));
            assert(after_help.mem(x) == after_name.mem(x));
            assert(after_help.l0_entry(x) == start.l0_entry(x));
            assert(user.mem(x) == after_help.mem(x));
        };
        assert(user.mem((argv0 + nlen) as u64) == 0) by {
            let x = (argv0 + nlen) as u64;
            assert(start.mem(x) == 0 && start.mapped(x));
            assert(after_name.mem(x) == start.mem(x));
            assert(after_name.l0_entry(x) == start.l0_entry(x));
            assert(after_help.mem(x) == after_name.mem(x));
            assert(after_help.l0_entry(x) == start.l0_entry(x));
            assert(user.mem(x) == after_help.mem(x));
        };
        assert forall|x: u64|
            x < VA_LIMIT && !(sp <= x < STACK_TOP) && start.mapped(x) implies user.mem(x)
            == start.mem(x) by {
            assert(after_name.mem(x) == start.mem(x));
            assert(after_name.l0_entry(x) == start.l0_entry(x));
            assert(after_help.mem(x) == after_name.mem(x));
            assert(after_help.l0_entry(x) == start.l0_entry(x));
            assert(user.mem(x) == after_help.mem(x));
        };
    }
    sp
}


/// What a boot returns and leaves in memory, given the indices of the
/// interpreter and executable entries.
pub open spec fn boot_outcome(
    es: Seq<(Seq<u8>, u32, Seq<u8>)>,
    d: int,
    m: int,
    r: Result<BootPlan, BootError>,
    u: AddressSpace,
) -> bool {
    let name = es[m].0;
    let mb = es[m].2;
    let db = es[d].2;
    let nlen = name.len() as int;
    let sp = sp_addr(nlen);
    &&& (r is Ok <==> name.len() <= 4096 && image_loadable(mb, EXEC_BASE as int, EXEC_LIMIT as int)
        && image_loadable(db, DYLD_BASE as int, DYLD_LIMIT as int) && e_phoff(mb) + EXEC_BASE
        <= u64::MAX)
    &&& (r is Ok ==> {
        &&& r->Ok_0.sp == sp
        &&& r->Ok_0.entry == e_entry(db) + DYLD_BASE
        &&& forall|j: int|
            0 <= j < 18 ==> #[trigger] u.word_at((sp + 8 * j) as u64) == stack_words(
                nlen,
                e_entry(mb) + EXEC_BASE,
                e_phnum(mb),
                e_phoff(mb) + EXEC_BASE,
            )[j]
        &&& forall|j: int|
            0 <= j < nlen ==> #[trigger] u.mem((argv0_addr(nlen) + j) as u64) == name[j]
        &&& u.mem((argv0_addr(nlen) + nlen) as u64) == 0
        &&& u.heap_is(
            max_extent(mb, EXEC_BASE as int, e_phnum(mb)) as u64,
            max_extent(mb, EXEC_BASE as int, e_phnum(mb)) as u64,
            max_extent(mb, EXEC_BASE as int, e_phnum(mb)) as u64,
        )
        &&& u.is_active()
    })
}

/// The loader handoff: the stack pointer and the interpreter entry point the
/// embedder transfers control to.
#[derive(Clone, Copy, Debug, PartialEq, Eq, Structural)]
pub struct BootPlan {
    pub sp: u64,
    pub entry: u64,
}

/// Construct the initial process from the boot archive: select the
/// interpreter and executable, identity-map the loader's own code window and
/// its high-half alias, map the stack, activate the address space, load both
/// images, seed the heap from the executable's extent, and build the initial
/// stack.  What remains is the irreversible control transfer, which the
/// embedder performs with the returned plan.
#[verifier::rlimit(100)]
pub fn boot_process(user: &mut AddressSpace, archive: &Vec<u8>, code_off: u64) -> (r: Result<
    BootPlan,
    BootError,
>)
    requires
        old(user).wf(),
        old(user).fresh(),
        code_off % 0x4000_0000 == 0,
        0x4000_0000 <= code_off < 0x10_0000_0000,
    ensures
        final(user).wf(),
        r == Err::<BootPlan, BootError>(BootError::MissingInterpreter) <==> forall|k: int|
            0 <= k < archive_entries(archive@).len() ==> (#[trigger] archive_entries(
                archive@,
            )[k]).0 != dyld_name(),
        r == Err::<BootPlan, BootError>(BootError::MissingExecutable) <==> ((exists|k: int|
            0 <= k < archive_entries(archive@).len() && (#[trigger] archive_entries(archive@)[k]).0
                == dyld_name()) && (forall|k: int|
            0 <= k < archive_entries(archive@).len() ==> (#[trigger] archive_entries(
                archive@,
            )[k]).0 == dyld_name())),
        forall|d: int, m: int|
            dyld_at(archive_entries(archive@), d) && main_at(archive_entries(archive@), m)
                ==> boot_outcome(archive_entries(archive@), d, m, r, *final(user)),
{
    let ghost es = archive_entries(archive@);
    let entries = read_archive(archive);
    proof {
        assert(entries_view(entries@) == es);
        old(user).lemma_fresh_props();
    }
    let sel = select_images(&entries);
    let (di, mi) = match sel {
        Ok(p) => p,
        Err(e) => {
            proof {
                lemma_selection_unique(es);
            }
            return Err(e);
        },
    };
    proof {
        lemma_selection_unique(es);
        assert(es[di as int].2 == entries@[di as int].data@);
        assert(es[mi as int].2 == entries@[mi as int].data@);
        assert(es[mi as int].0 == entries@[mi as int].name@);
    }
    if entries[mi].name.len() > 4096 {
        return Err(BootError::OversizedEntryName);
    }
    // The loader's own code window and its high-half alias, then the stack.
    let ghost c = (code_off as int) / 0x4000_0000;
    proof {
        vstd::arithmetic::div_mod::lemma_fundamental_div_mod(code_off as int, 0x4000_0000);
        assert(1 <= c < 64);
        assert(code_off % 4096 == 0) by {
            vstd::arithmetic::div_mod::lemma_fundamental_div_mod_converse(
                code_off as int,
                4096,
                c * 0x40000,
                0,
            );
        };
        lemma_gib_index(code_off, c);
        lemma_alias_vpn2(code_off);
    }
    user.map_one(code_off, code_off, 2);
    let ghost mid1 = *user;
    user.map_one(PHYS_VIRT_OFFSET + code_off, code_off, 2);
    let ghost after_ident = *user;
    proof {
        assert forall|x: u64|
            STACK_TOP - STACK_SIZE <= x < STACK_TOP implies user.path_clear(x) by {
            lemma_gib_index(x, 251);
            assert(vpn2(x) != vpn2((PHYS_VIRT_OFFSET + code_off) as u64));
            assert(user.superpage_at(x) == mid1.superpage_at(x));
            assert(vpn2(x) != vpn2(code_off));
            assert(mid1.superpage_at(x) == old(user).superpage_at(x));
            assert(old(user).path_clear(x));
        };
        assert forall|x: u64| EXEC_BASE <= x < EXEC_LIMIT implies user.path_clear(x) by {
            lemma_gib_index(x, 0);
            assert(vpn2(x) != vpn2((PHYS_VIRT_OFFSET + code_off) as u64));
            assert(user.superpage_at(x) == mid1.superpage_at(x));
            assert(vpn2(x) != vpn2(code_off));
            assert(mid1.superpage_at(x) == old(user).superpage_at(x));
            assert(old(user).path_clear(x));
        };
        assert forall|x: u64| DYLD_BASE <= x < DYLD_LIMIT implies user.path_clear(x) by {
            let q = (x as int) / 0x4000_0000;
            vstd::arithmetic::div_mod::lemma_fundamental_div_mod(x as int, 0x4000_0000);
            assert(64 <= q < 68);
            lemma_gib_index(x, q);
            assert(vpn2(x) != vpn2((PHYS_VIRT_OFFSET + code_off) as u64));
            assert(user.superpage_at(x) == mid1.superpage_at(x));
            assert(vpn2(x) != vpn2(code_off));
            assert(mid1.superpage_at(x) == old(user).superpage_at(x));
            assert(old(user).path_clear(x));
        };
    }
    user.map_new(STACK_TOP - STACK_SIZE, STACK_SIZE);
    let ghost after_mapnew = *user;
    user.make_current();
    let ghost after_stack = *user;
    proof {
        assert forall|x: u64| EXEC_BASE <= x < EXEC_LIMIT implies user.path_clear(x) by {
            assert(user.superpage_at(x) == after_ident.superpage_at(x));
            assert(after_ident.path_clear(x));
        };
        assert(user.range_clear(EXEC_BASE, (EXEC_LIMIT - EXEC_BASE) as u64));
    }
    let em = match map_elf(user, &entries[mi].data, EXEC_BASE, EXEC_LIMIT) {
        Ok(v) => v,
        Err(e) => {
            return Err(BootError::BadImage(e));
        },
    };
    let (main_entry, main_max) = em;
    let ghost after_main = *user;
    proof {
        let mb = es[mi as int].2;
        crate::elf_image::lemma_fields_bounded(mb);
        lemma_max_extent_covers(mb, EXEC_BASE, e_phnum(mb));
        assert(main_max % 4096 == 0);
    }
    user.seed_heap(main_max);
    let ghost after_seed = *user;
    proof {
        assert forall|x: u64| DYLD_BASE <= x < DYLD_LIMIT implies user.path_clear(x) by {
            assert(user.superpage_at(x) == after_seed.superpage_at(x));
            assert(after_seed.superpage_at(x) == after_main.superpage_at(x));
            assert(after_main.superpage_at(x) == after_stack.superpage_at(x));
            assert(after_stack.superpage_at(x) == after_ident.superpage_at(x));
            assert(after_ident.path_clear(x));
        };
        assert(user.range_clear(DYLD_BASE, (DYLD_LIMIT - DYLD_BASE) as u64));
    }
    let ed = match map_elf(user, &entries[di].data, DYLD_BASE, DYLD_LIMIT) {
        Ok(v) => v,
        Err(e) => {
            return Err(BootError::BadImage(e));
        },
    };
    let (dyld_entry, _dyld_max) = ed;
    let ghost after_dyld = *user;
    let phoff_m = crate::elf_image::image_phoff(&entries[mi].data);
    if phoff_m > u64::MAX - EXEC_BASE {
        return Err(BootError::BadImage(ElfError::InvalidImage));
    }
    let phnum_m = crate::elf_image::image_phnum(&entries[mi].data);
    proof {
        // The freshly mapped stack survives the loads untouched.
        assert forall|x: u64|
            STACK_TOP - STACK_SIZE <= x < STACK_TOP implies user.mapped(x) && user.mem(x)
            == 0 by {
            assert(after_mapnew.mapped(x) && after_mapnew.mem(x) == 0);
            assert(after_stack.l0_entry(x) == after_mapnew.l0_entry(x));
            assert(after_stack.mem(x) == after_mapnew.mem(x));
            assert(after_main.l0_entry(x) == after_stack.l0_entry(x));
            assert(after_main.mem(x) == after_stack.mem(x));
            assert(after_seed.l0_entry(x) == after_main.l0_entry(x));
            assert(after_seed.mem(x) == after_main.mem(x));
            assert(user.l0_entry(x) == after_seed.l0_entry(x));
            assert(user.mem(x) == after_seed.mem(x));
        };
    }
    let sp = build_stack(user, &entries[mi].name, EXEC_BASE + phoff_m, phnum_m as u64, main_entry);
    proof {
        let nlen = es[mi as int].0.len() as int;
        assert(user.heap_is(main_max, main_max, main_max));
        assert(user.is_active());
    }
    Ok(BootPlan { sp, entry: dyld_entry })
}

/// The first interpreter index and the first executable index are unique.
proof fn lemma_selection_unique(es: Seq<(Seq<u8>, u32, Seq<u8>)>)
    ensures
        forall|d1: int, d2: int| dyld_at(es, d1) && dyld_at(es, d2) ==> d1 == d2,
        forall|m1: int, m2: int| main_at(es, m1) && main_at(es, m2) ==> m1 == m2,
{
    assert forall|d1: int, d2: int| dyld_at(es, d1) && dyld_at(es, d2) implies d1 == d2 by {
        if d1 < d2 {
            assert(es[d1].0 != dyld_name());
        }
        if d2 < d1 {
            assert(es[d2].0 != dyld_name());
        }
    };
    assert forall|m1: int, m2: int| main_at(es, m1) && main_at(es, m2) implies m1 == m2 by {
        if m1 < m2 {
            assert(es[m1].0 == dyld_name());
        }
        if m2 < m1 {
            assert(es[m2].0 == dyld_name());
        }
    };
}

/// The address index of everything in one aligned 1 GiB block.
proof fn lemma_gib_index(x: u64, g: int)
    requires
        0 <= g < 512,
        g * 0x4000_0000 <= x < (g + 1) * 0x4000_0000,
    ensures
        vpn2(x) == g,
{
    vstd::arithmetic::div_mod::lemma_fundamental_div_mod_converse(
        x as int,
        0x4000_0000,
        g,
        x - g * 0x4000_0000,
    );
}

/// The root-node index of the high-half alias of an aligned low block.
proof fn lemma_alias_vpn2(code_off: u64)
    requires
        code_off % 0x4000_0000 == 0,
        0x4000_0000 <= code_off < 0x10_0000_0000,
    ensures
        vpn2((PHYS_VIRT_OFFSET + code_off) as u64) == 256 + (code_off as int) / 0x4000_0000,
{
    let c = (code_off as int) / 0x4000_0000;
    vstd::arithmetic::div_mod::lemma_fundamental_div_mod(code_off as int, 0x4000_0000);
    assert(1 <= c < 64);
    let v = PHYS_VIRT_OFFSET as int + code_off;
    assert(v == (0x3_ffff_ff00 + c) * 0x4000_0000);
    vstd::arithmetic::div_mod::lemma_fundamental_div_mod_converse(
        v,
        0x4000_0000,
        0x3_ffff_ff00 + c,
        0,
    );
    assert(v / 0x4000_0000 == 0x3_ffff_ff00 + c);
    vstd::arithmetic::div_mod::lemma_fundamental_div_mod_converse(
        0x3_ffff_ff00 + c,
        512,
        33554431,
        256 + c,
    );
}

} // verus!
