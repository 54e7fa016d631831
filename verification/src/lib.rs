//! A verified process bootstrapper: per-process virtual address spaces over
//! a hand-built three-level page table, a position-independent ELF loader,
//! the initial stack and auxiliary-vector contract a dynamic linker expects,
//! and the narrow syscall surface that keeps such a process running.
//! Alongside the boot path sit the supporting pieces of the same system: a
//! flattened-devicetree reader, an early bump allocator, and the seed
//! generator for hashers.
//!
//! External collaborators stay outside: the archive format is split into
//! entries by an archive-reader crate behind one trusted boundary, the
//! physical page allocator is modelled by the address space's page arena,
//! and the console transport is modelled by an in-memory sink that the
//! embedder drains.

use vstd::prelude::*;

pub mod addr_space;
pub mod bootstrap;
pub mod early_alloc;
pub mod elf_image;
pub mod fdt;
pub mod node;
pub mod op;
pub mod property;
pub mod syscall;
mod rng;

pub use rng::{random, step_rng};

verus! {

} // verus!
