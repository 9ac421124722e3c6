//! Loader for a statically linked 64-bit ELF kernel image.
//!
//! The input is an in-memory ELF image placed at a page-aligned physical
//! address by an earlier boot stage.  The loader applies `R_X86_64_RELATIVE`
//! relocations to the image in place, computes the page-to-frame mappings that
//! install every `PT_LOAD` segment at its target virtual address with the
//! correct permission flags, materialises the zero-initialised tail of each
//! segment (`mem_size > file_size`) in freshly allocated frames, records the
//! thread-local-storage template, and reports which top-level page-table
//! slots the kernel occupies.

pub mod arith;
pub mod bytes;
pub mod elf;
pub mod errors;
pub mod load;
pub mod paging;
pub mod reloc;
pub mod usage;
