//! Tests for the loader core: address spaces, the ELF loader, the syscall
//! surface, the bootstrap sequence, the early allocator, and the seed
//! generator.

use axboot::addr_space::AddressSpace;
use axboot::bootstrap::{boot_process, select_images, ArchiveEntry, BootError, BootPlan, EXEC_BASE};
use axboot::elf_image::{map_elf, ElfError};
use axboot::early_alloc::EarlyAllocator;
use axboot::syscall::{axmusl_syscall_handler, brk, mmap, mprotect, writev, ConsoleSink, SyscallOutcome};
use axboot::{random, step_rng};

fn put16(b: &mut Vec<u8>, off: usize, v: u16) {
    b[off] = (v & 0xff) as u8;
    b[off + 1] = (v >> 8) as u8;
}

fn put32(b: &mut Vec<u8>, off: usize, v: u32) {
    for k in 0..4 {
        b[off + k] = ((v >> (8 * k)) & 0xff) as u8;
    }
}

fn put64(b: &mut Vec<u8>, off: usize, v: u64) {
    for k in 0..8 {
        b[off + k] = ((v >> (8 * k)) & 0xff) as u8;
    }
}

/// A two-segment position-independent image whose first segment holds
/// `[1, 2, 3, 4]` and whose second holds `[5, 6]`.
fn two_segment_elf() -> Vec<u8> {
    let mut b = vec![0u8; 182];
    b[0] = 0x7f;
    b[1] = 0x45;
    b[2] = 0x4c;
    b[3] = 0x46;
    b[4] = 2; // 64-bit
    put16(&mut b, 16, 3); // position-independent
    put64(&mut b, 24, 0x100); // entry
    put64(&mut b, 32, 64); // program headers at 64
    put16(&mut b, 54, 56); // entry size
    put16(&mut b, 56, 2); // two entries
    // Segment 0: vaddr 0, file bytes 176..180, memsz 16.
    put32(&mut b, 64, 1);
    put64(&mut b, 64 + 8, 176);
    put64(&mut b, 64 + 16, 0);
    put64(&mut b, 64 + 32, 4);
    put64(&mut b, 64 + 40, 16);
    // Segment 1: vaddr 0x1000, file bytes 180..182, memsz 8.
    put32(&mut b, 120, 1);
    put64(&mut b, 120 + 8, 180);
    put64(&mut b, 120 + 16, 0x1000);
    put64(&mut b, 120 + 32, 2);
    put64(&mut b, 120 + 40, 8);
    b[176] = 1;
    b[177] = 2;
    b[178] = 3;
    b[179] = 4;
    b[180] = 5;
    b[181] = 6;
    b
}

#[test]
fn map_new_then_write_and_read_back() {
    let mut user = AddressSpace::new();
    user.map_new(0x10000, 0x2000);
    user.make_current();
    assert_eq!(user.read_byte(0x10000), 0);
    assert_eq!(user.read_byte(0x11fff), 0);
    user.write_byte(0x10abc, 0x5a);
    user.write_byte(0x11abc, 0xa5);
    assert_eq!(user.read_byte(0x10abc), 0x5a);
    assert_eq!(user.read_byte(0x11abc), 0xa5);
    assert_eq!(user.read_byte(0x10abd), 0);
}

#[test]
fn write_word_round_trip() {
    let mut user = AddressSpace::new();
    user.map_new(0x4000, 0x1000);
    user.write_word(0x4100, 0x1122_3344_5566_7788);
    assert_eq!(user.read_byte(0x4100), 0x88);
    assert_eq!(user.read_byte(0x4107), 0x11);
}

#[test]
fn brk_below_floor_is_a_no_op() {
    let mut user = AddressSpace::new();
    user.seed_heap(0x8000);
    assert_eq!(brk(&mut user, 0x7000), 0x8000);
    assert_eq!(user.cur_brk(), 0x8000);
    assert_eq!(user.cur_brk_max(), 0x8000);
}

#[test]
fn brk_within_ceiling_moves_only_the_end() {
    let mut user = AddressSpace::new();
    user.seed_heap(0x8000);
    assert_eq!(brk(&mut user, 0x9234), 0x9234);
    assert_eq!(user.cur_brk_max(), 0xa000);
    // Lowering within the ceiling moves brk but not the ceiling.
    assert_eq!(brk(&mut user, 0x8800), 0x8800);
    assert_eq!(user.cur_brk(), 0x8800);
    assert_eq!(user.cur_brk_max(), 0xa000);
}

#[test]
fn brk_extension_maps_fresh_zero_pages() {
    let mut user = AddressSpace::new();
    user.seed_heap(0x8000);
    assert_eq!(brk(&mut user, 0x8001), 0x8001);
    assert_eq!(user.cur_brk_max(), 0x9000);
    assert_eq!(user.read_byte(0x8000), 0);
    user.write_byte(0x8123, 7);
    assert_eq!(user.read_byte(0x8123), 7);
}

#[test]
fn map_elf_loads_both_segments() {
    let mut user = AddressSpace::new();
    let img = two_segment_elf();
    let (entry, max) = map_elf(&mut user, &img, 0x1000_0000, 0x4000_0000).unwrap();
    assert_eq!(entry, 0x1000_0100);
    assert_eq!(max, 0x1000_2000);
    assert_eq!(user.read_byte(0x1000_0000), 1);
    assert_eq!(user.read_byte(0x1000_0003), 4);
    assert_eq!(user.read_byte(0x1000_0004), 0); // zero fill
    assert_eq!(user.read_byte(0x1000_1000), 5);
    assert_eq!(user.read_byte(0x1000_1001), 6);
    assert_eq!(user.read_byte(0x1000_1002), 0); // zero fill
}

#[test]
fn map_elf_rejects_corrupt_segment_without_copying() {
    let mut user = AddressSpace::new();
    let mut img = two_segment_elf();
    // Declare more file bytes than memory bytes in the second segment.
    put64(&mut img, 120 + 32, 9);
    put64(&mut img, 120 + 40, 8);
    let r = map_elf(&mut user, &img, 0x1000_0000, 0x4000_0000);
    assert_eq!(r, Err(ElfError::CorruptSegment));
    // Nothing was mapped: the heap model still reports a fresh space.
    assert_eq!(user.cur_brk(), 0);
}

#[test]
fn map_elf_rejects_bad_magic() {
    let mut user = AddressSpace::new();
    let mut img = two_segment_elf();
    img[0] = 0x7e;
    assert_eq!(map_elf(&mut user, &img, 0x1000_0000, 0x4000_0000), Err(ElfError::InvalidImage));
}

#[test]
fn writev_writes_five_then_zero_bytes() {
    let mut sink = ConsoleSink::new(1024);
    let bufs = vec![vec![10, 20, 30, 40, 50], vec![]];
    let r = writev(1, &bufs, &mut sink);
    assert_eq!(r, Ok(5));
    assert_eq!(sink.data, vec![10, 20, 30, 40, 50]);
}

#[test]
fn writev_rejects_bad_descriptor() {
    let mut sink = ConsoleSink::new(1024);
    let bufs = vec![vec![1, 2, 3]];
    assert_eq!(writev(7, &bufs, &mut sink), Err(22));
    assert!(sink.data.is_empty());
}

#[test]
fn writev_short_write_stops_iteration() {
    let mut sink = ConsoleSink::new(3);
    let bufs = vec![vec![1, 2, 3, 4, 5], vec![6, 7]];
    assert_eq!(writev(1, &bufs, &mut sink), Ok(3));
    assert_eq!(sink.data, vec![1, 2, 3]);
}

#[test]
fn writev_broken_sink_is_an_io_error() {
    let mut sink = ConsoleSink::new_broken();
    let bufs = vec![vec![1]];
    assert_eq!(writev(1, &bufs, &mut sink), Err(5));
}

#[test]
fn syscall_dispatch_table() {
    let mut user = AddressSpace::new();
    let mut sink = ConsoleSink::new(64);
    let none: Vec<Vec<u8>> = Vec::new();
    assert!(matches!(
        axmusl_syscall_handler(&mut user, &mut sink, 96, 0, &none),
        SyscallOutcome::Ret(1)
    ));
    assert!(matches!(
        axmusl_syscall_handler(&mut user, &mut sink, 29, 0, &none),
        SyscallOutcome::Ret(-22)
    ));
    assert!(matches!(
        axmusl_syscall_handler(&mut user, &mut sink, 57, 0, &none),
        SyscallOutcome::Ret(0)
    ));
    assert!(matches!(
        axmusl_syscall_handler(&mut user, &mut sink, 222, 0, &none),
        SyscallOutcome::Ret(0)
    ));
    assert!(matches!(
        axmusl_syscall_handler(&mut user, &mut sink, 226, 0, &none),
        SyscallOutcome::Ret(0)
    ));
    assert!(matches!(
        axmusl_syscall_handler(&mut user, &mut sink, 94, 0, &none),
        SyscallOutcome::Exit
    ));
    assert!(matches!(
        axmusl_syscall_handler(&mut user, &mut sink, 1234, 0, &none),
        SyscallOutcome::Fatal
    ));
    let bufs = vec![vec![65, 66]];
    assert!(matches!(
        axmusl_syscall_handler(&mut user, &mut sink, 66, 1, &bufs),
        SyscallOutcome::Ret(2)
    ));
    assert_eq!(sink.data, vec![65, 66]);
}

#[test]
fn mmap_and_mprotect_are_stubs() {
    assert_eq!(mmap(0x1000, 0x2000, 7, 0x22, -1, 0), 0);
    assert_eq!(mprotect(0x1000, 0x2000, 1), 0);
}

#[test]
fn select_images_picks_first_matches() {
    let entries = vec![
        ArchiveEntry { name: b"main".to_vec(), mode: 0o755, data: vec![1] },
        ArchiveEntry { name: b"ld.so".to_vec(), mode: 0o755, data: vec![2] },
        ArchiveEntry { name: b"other".to_vec(), mode: 0o644, data: vec![3] },
    ];
    assert_eq!(select_images(&entries), Ok((1, 0)));
}

#[test]
fn select_images_reports_missing_pieces() {
    let no_dyld = vec![ArchiveEntry { name: b"main".to_vec(), mode: 0, data: vec![] }];
    assert_eq!(select_images(&no_dyld), Err(BootError::MissingInterpreter));
    let only_dyld = vec![ArchiveEntry { name: b"ld.so".to_vec(), mode: 0, data: vec![] }];
    assert_eq!(select_images(&only_dyld), Err(BootError::MissingExecutable));
}

fn cpio_entry(out: &mut Vec<u8>, name: &str, data: &[u8]) {
    let mut h = String::new();
    h.push_str("070701");
    let fields = [
        1u32,                      // ino
        0o100755,                  // mode
        0,                         // uid
        0,                         // gid
        1,                         // nlink
        0,                         // mtime
        data.len() as u32,         // filesize
        0,                         // devmajor
        0,                         // devminor
        0,                         // rdevmajor
        0,                         // rdevminor
        (name.len() + 1) as u32,   // namesize
        0,                         // check
    ];
    for f in fields {
        h.push_str(&format!("{:08X}", f));
    }
    out.extend_from_slice(h.as_bytes());
    out.extend_from_slice(name.as_bytes());
    out.push(0);
    while out.len() % 4 != 0 {
        out.push(0);
    }
    out.extend_from_slice(data);
    while out.len() % 4 != 0 {
        out.push(0);
    }
}

fn boot_archive() -> Vec<u8> {
    let img = two_segment_elf();
    let mut a = Vec::new();
    cpio_entry(&mut a, "ld.so", &img);
    cpio_entry(&mut a, "main", &img);
    cpio_entry(&mut a, "TRAILER!!!", &[]);
    a
}

#[test]
fn boot_process_builds_the_initial_stack() {
    let mut user = AddressSpace::new();
    let archive = boot_archive();
    let plan: BootPlan = boot_process(&mut user, &archive, 0x4000_0000).unwrap();
    // The interpreter's entry, relocated to its fixed high base.
    assert_eq!(plan.entry, 0x10_0000_0100);
    assert_eq!(plan.sp % 8, 0);
    let word = |user: &AddressSpace, va: u64| -> u64 {
        let mut v: u64 = 0;
        for k in 0..8 {
            v |= (user.read_byte(va + k) as u64) << (8 * k);
        }
        v
    };
    // argc = 2, two argument pointers, then the null terminator.
    assert_eq!(word(&user, plan.sp), 2);
    let argv0 = word(&user, plan.sp + 8);
    let argv1 = word(&user, plan.sp + 16);
    assert_ne!(argv0, 0);
    assert_ne!(argv1, 0);
    assert_eq!(word(&user, plan.sp + 24), 0);
    // The program name, zero-terminated, where argv[0] points.
    assert_eq!(user.read_byte(argv0), b'm');
    assert_eq!(user.read_byte(argv0 + 3), b'n');
    assert_eq!(user.read_byte(argv0 + 4), 0);
    // The synthetic argument.
    assert_eq!(user.read_byte(argv1), b'-');
    assert_eq!(user.read_byte(argv1 + 5), b'p');
    // The auxiliary vector: the first pair carries the executable entry,
    // and the topmost pair is the null-tag terminator.
    assert_eq!(word(&user, plan.sp + 32), 9);
    assert_eq!(word(&user, plan.sp + 40), (EXEC_BASE + 0x100) as u64);
    assert_eq!(word(&user, plan.sp + 64), 6);
    assert_eq!(word(&user, plan.sp + 72), 4096);
    assert_eq!(word(&user, plan.sp + 128), 0);
    assert_eq!(word(&user, plan.sp + 136), 0);
    // The executable's extent seeds all three heap bounds.
    assert_eq!(user.cur_brk(), (EXEC_BASE + 0x2000) as u64);
    assert_eq!(user.cur_brk_min(), (EXEC_BASE + 0x2000) as u64);
    assert_eq!(user.cur_brk_max(), (EXEC_BASE + 0x2000) as u64);
    assert!(user.is_active_now());
}

#[test]
fn boot_process_requires_an_interpreter() {
    let mut user = AddressSpace::new();
    let img = two_segment_elf();
    let mut a = Vec::new();
    cpio_entry(&mut a, "main", &img);
    cpio_entry(&mut a, "TRAILER!!!", &[]);
    assert_eq!(
        boot_process(&mut user, &a, 0x4000_0000),
        Err(BootError::MissingInterpreter)
    );
}

#[test]
fn boot_process_rejects_a_corrupt_executable() {
    let mut user = AddressSpace::new();
    let mut img = two_segment_elf();
    put64(&mut img, 120 + 32, 9);
    put64(&mut img, 120 + 40, 8);
    let good = two_segment_elf();
    let mut a = Vec::new();
    cpio_entry(&mut a, "ld.so", &good);
    cpio_entry(&mut a, "main", &img);
    cpio_entry(&mut a, "TRAILER!!!", &[]);
    assert_eq!(
        boot_process(&mut user, &a, 0x4000_0000),
        Err(BootError::BadImage(ElfError::CorruptSegment))
    );
}

#[test]
fn early_allocator_carves_from_both_ends() {
    let mut a: EarlyAllocator<4096> = EarlyAllocator::new();
    a.init(0x10000, 0x10000);
    assert_eq!(a.total_bytes(), 0x10000);
    assert_eq!(a.used_bytes(), 0);
    let p = a.alloc_bytes(16, 8).unwrap();
    assert_eq!(p, 0x10000);
    let q = a.alloc_bytes(3, 32).unwrap();
    assert_eq!(q, 0x10020);
    assert_eq!(a.used_bytes(), 0x23);
    let pg = a.alloc_pages(2, 4096).unwrap();
    assert_eq!(pg, 0x20000 - 2 * 4096);
    assert_eq!(a.used_pages(), 2);
    assert_eq!(a.available_bytes(), 0x20000 - 2 * 4096 - 0x10023);
}

#[test]
fn early_allocator_skips_the_null_address() {
    let mut a: EarlyAllocator<4096> = EarlyAllocator::new();
    a.init(0, 0x1000);
    let p = a.alloc_bytes(1, 1).unwrap();
    assert_eq!(p, 1);
}

#[test]
fn early_allocator_reports_exhaustion() {
    let mut a: EarlyAllocator<4096> = EarlyAllocator::new();
    a.init(0x1000, 0x100);
    assert!(a.alloc_bytes(0x200, 1).is_err());
    assert!(a.alloc_pages(1, 4096).is_err());
}

#[test]
fn park_miller_lehmer_sequence() {
    let mut seed: u32 = 1;
    assert_eq!(step_rng(&mut seed), 1);
    assert_eq!(seed, 48271);
    assert_eq!(step_rng(&mut seed), 48271);
    let mut seed2: u32 = 1;
    let r = random(&mut seed2);
    assert_eq!(r, (1u64 << 32) | 48271);
}
