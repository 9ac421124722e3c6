//! End-to-end scenarios: whole ELF images built byte by byte and loaded
//! through `load_kernel`.

use kernel_loader::errors::LoadError;
use kernel_loader::load::{load_kernel, TlsTemplate};
use kernel_loader::paging::{BootFrames, KernelPageTable, PageFlags};

fn put16(img: &mut Vec<u8>, off: usize, v: u16) {
    for k in 0..2 {
        img[off + k] = (v >> (8 * k)) as u8;
    }
}

fn put32(img: &mut Vec<u8>, off: usize, v: u32) {
    for k in 0..4 {
        img[off + k] = (v >> (8 * k)) as u8;
    }
}

fn put64(img: &mut Vec<u8>, off: usize, v: u64) {
    for k in 0..8 {
        img[off + k] = (v >> (8 * k)) as u8;
    }
}

fn get64(img: &[u8], off: usize) -> u64 {
    let mut v: u64 = 0;
    for k in 0..8 {
        v |= (img[off + k] as u64) << (8 * k);
    }
    v
}

/// One program header: `[ptype, flags, offset, vaddr, filesz, memsz]`.
fn elf_image(size: usize, etype: u16, entry: u64, phdrs: &[[u64; 6]]) -> Vec<u8> {
    let mut img = vec![0u8; size];
    img[0] = 0x7f;
    img[1] = b'E';
    img[2] = b'L';
    img[3] = b'F';
    img[4] = 2; // 64-bit
    img[5] = 1; // little-endian
    img[6] = 1; // ident version
    put16(&mut img, 16, etype);
    put16(&mut img, 18, 62); // x86-64
    put32(&mut img, 20, 1);
    put64(&mut img, 24, entry);
    put64(&mut img, 32, 64); // program headers right after the header
    put16(&mut img, 54, 56);
    put16(&mut img, 56, phdrs.len() as u16);
    for (i, ph) in phdrs.iter().enumerate() {
        let b = 64 + i * 56;
        put32(&mut img, b, ph[0] as u32);
        put32(&mut img, b + 4, ph[1] as u32);
        put64(&mut img, b + 8, ph[2]);
        put64(&mut img, b + 16, ph[3]);
        put64(&mut img, b + 32, ph[4]);
        put64(&mut img, b + 40, ph[5]);
    }
    img
}

const KO: u64 = 0x800000;

fn rx() -> PageFlags {
    PageFlags { present: true, writable: false, no_execute: false }
}

fn rw() -> PageFlags {
    PageFlags { present: true, writable: true, no_execute: true }
}

#[test]
fn s1_exec_single_rx_load() {
    // ET_EXEC, one R-X LOAD of two pages.
    let mut img = elf_image(
        0x3000,
        2,
        0x100000,
        &[[1, 5, 0x1000, 0x100000, 0x2000, 0x2000]],
    );
    for i in 0..0x2000usize {
        img[0x1000 + i] = (i % 251) as u8;
    }
    let mut pt = KernelPageTable::new();
    let mut fa = BootFrames::new(vec![]);
    let out = load_kernel(KO, &mut img, &mut pt, &mut fa).unwrap();
    assert_eq!(out.entry, 0x100000);
    assert!(out.tls_template.is_none());
    let t0 = pt.translate(0x100000).unwrap();
    assert_eq!(t0.frame, KO + 0x1000);
    assert_eq!(t0.flags, rx());
    let t1 = pt.translate(0x101000).unwrap();
    assert_eq!(t1.frame, KO + 0x2000);
    assert_eq!(t1.flags, rx());
    assert!(pt.translate(0x102000).is_none());
    assert!(pt.translate(0xff000).is_none());
    // usage: (0x100000 >> 39) & 0x1ff == 0
    assert!(out.used_entries.get(0));
    for i in 1..512 {
        assert!(!out.used_entries.get(i));
    }
    // no fresh frames were needed
    assert!(out.fresh_frames.is_empty());
}

#[test]
fn s2_dyn_with_rela() {
    // ET_DYN with a single RELATIVE relocation at virtual address 0.
    let mut img = elf_image(
        0x3000,
        3,
        0,
        &[
            [1, 6, 0x1000, 0, 0x1000, 0x1000],
            [2, 6, 0x2000, 0x2000, 0x40, 0x40],
        ],
    );
    // dynamic table: Rela = 0x2800 (file offset), RelaSize = 24, RelaEnt = 24
    put64(&mut img, 0x2000, 7);
    put64(&mut img, 0x2008, 0x2800);
    put64(&mut img, 0x2010, 8);
    put64(&mut img, 0x2018, 24);
    put64(&mut img, 0x2020, 9);
    put64(&mut img, 0x2028, 24);
    // one relocation: r_offset = 0, type RELATIVE (8), addend 0x50
    put64(&mut img, 0x2800, 0);
    put64(&mut img, 0x2808, 8);
    put64(&mut img, 0x2810, 0x50);
    let mut pt = KernelPageTable::new();
    let mut fa = BootFrames::new(vec![]);
    let out = load_kernel(KO, &mut img, &mut pt, &mut fa).unwrap();
    assert_eq!(out.entry, 0x400000);
    // the word at the start of the load segment was patched in the image
    assert_eq!(get64(&img, 0x1000), 0x400050);
    let t = pt.translate(0x400000).unwrap();
    assert_eq!(t.frame, KO + 0x1000);
    assert_eq!(t.flags, rw());
}

#[test]
fn s3_split_tail_bss() {
    // LOAD with a split tail page and one wholly zero page.
    let mut img = elf_image(
        0x3000,
        2,
        0x200000,
        &[[1, 6, 0x1000, 0x200000, 0x1800, 0x3000]],
    );
    for i in 0..0x1800usize {
        img[0x1000 + i] = (i % 251) as u8;
    }
    let snapshot = img.clone();
    let mut pt = KernelPageTable::new();
    let mut fa = BootFrames::new(vec![0x900000, 0x901000]);
    let out = load_kernel(KO, &mut img, &mut pt, &mut fa).unwrap();
    // frames are handed out back to front
    let tail = pt.translate(0x201000).unwrap();
    assert_eq!(tail.frame, 0x901000);
    assert_eq!(tail.flags, rw());
    let zero = pt.translate(0x202000).unwrap();
    assert_eq!(zero.frame, 0x900000);
    assert_eq!(zero.flags, rw());
    let first = pt.translate(0x200000).unwrap();
    assert_eq!(first.frame, KO + 0x1000);
    // the tail frame holds the last 0x800 file bytes, then zeros
    let tc = out.fresh_frames.iter().find(|f| f.frame == 0x901000).unwrap();
    assert_eq!(tc.bytes.len(), 4096);
    for i in 0..0x800usize {
        assert_eq!(tc.bytes[i], img[0x2000 + i]);
    }
    for i in 0x800..4096usize {
        assert_eq!(tc.bytes[i], 0);
    }
    // the wholly zero page is wholly zero
    let zc = out.fresh_frames.iter().find(|f| f.frame == 0x900000).unwrap();
    assert!(zc.bytes.iter().all(|b| *b == 0));
    // the original image (and so the original frame) is untouched
    assert_eq!(img, snapshot);
}

#[test]
fn s4_tls_template() {
    let mut img = elf_image(
        0x2000,
        2,
        0x100000,
        &[
            [1, 5, 0x1000, 0x100000, 0x1000, 0x1000],
            [7, 4, 0x1000, 0x10000, 0x20, 0x40],
        ],
    );
    let mut pt = KernelPageTable::new();
    let mut fa = BootFrames::new(vec![]);
    let out = load_kernel(KO, &mut img, &mut pt, &mut fa).unwrap();
    assert_eq!(
        out.tls_template,
        Some(TlsTemplate { start_addr: 0x10000, file_size: 0x20, mem_size: 0x40 })
    );
}

#[test]
fn s5_two_tls_segments() {
    let mut img = elf_image(
        0x2000,
        2,
        0x100000,
        &[
            [1, 5, 0x1000, 0x100000, 0x1000, 0x1000],
            [7, 4, 0x1000, 0x10000, 0x20, 0x40],
            [7, 4, 0x1000, 0x20000, 0x20, 0x40],
        ],
    );
    let mut pt = KernelPageTable::new();
    let mut fa = BootFrames::new(vec![]);
    let r = load_kernel(KO, &mut img, &mut pt, &mut fa);
    assert_eq!(r.err(), Some(LoadError::MultipleTlsSegments));
}

#[test]
fn s6_unsupported_relocation_type() {
    let mut img = elf_image(
        0x3000,
        3,
        0,
        &[
            [1, 6, 0x1000, 0, 0x1000, 0x1000],
            [2, 6, 0x2000, 0x2000, 0x40, 0x40],
        ],
    );
    put64(&mut img, 0x2000, 7);
    put64(&mut img, 0x2008, 0x2800);
    put64(&mut img, 0x2010, 8);
    put64(&mut img, 0x2018, 24);
    put64(&mut img, 0x2020, 9);
    put64(&mut img, 0x2028, 24);
    put64(&mut img, 0x2800, 0);
    put64(&mut img, 0x2808, 7); // relocation type 7
    put64(&mut img, 0x2810, 0x50);
    let mut pt = KernelPageTable::new();
    let mut fa = BootFrames::new(vec![]);
    let r = load_kernel(KO, &mut img, &mut pt, &mut fa);
    assert_eq!(r.err(), Some(LoadError::UnsupportedRelocationType));
}

#[test]
fn misaligned_image_base() {
    let mut img = elf_image(0x2000, 2, 0, &[]);
    let mut pt = KernelPageTable::new();
    let mut fa = BootFrames::new(vec![]);
    let r = load_kernel(KO + 1, &mut img, &mut pt, &mut fa);
    assert_eq!(r.err(), Some(LoadError::ImageNotAligned));
}

#[test]
fn bad_magic_is_rejected() {
    let mut img = elf_image(0x2000, 2, 0, &[]);
    img[0] = 0x7e;
    let mut pt = KernelPageTable::new();
    let mut fa = BootFrames::new(vec![]);
    let r = load_kernel(KO, &mut img, &mut pt, &mut fa);
    assert_eq!(r.err(), Some(LoadError::BadHeader));
}

#[test]
fn relocatable_type_is_rejected() {
    let mut img = elf_image(0x2000, 1, 0, &[]);
    let mut pt = KernelPageTable::new();
    let mut fa = BootFrames::new(vec![]);
    let r = load_kernel(KO, &mut img, &mut pt, &mut fa);
    assert_eq!(r.err(), Some(LoadError::UnsupportedElfType));
}

#[test]
fn congruence_violation_is_rejected() {
    // offset and vaddr disagree modulo the page size
    let mut img = elf_image(0x3000, 2, 0, &[[1, 5, 0x1000, 0x100800, 0x800, 0x800]]);
    let mut pt = KernelPageTable::new();
    let mut fa = BootFrames::new(vec![]);
    let r = load_kernel(KO, &mut img, &mut pt, &mut fa);
    assert_eq!(r.err(), Some(LoadError::BadProgramHeader));
}

#[test]
fn load_past_end_of_file_is_rejected() {
    let mut img = elf_image(0x2000, 2, 0, &[[1, 5, 0x1000, 0x100000, 0x4000, 0x4000]]);
    let mut pt = KernelPageTable::new();
    let mut fa = BootFrames::new(vec![]);
    let r = load_kernel(KO, &mut img, &mut pt, &mut fa);
    assert_eq!(r.err(), Some(LoadError::BadProgramHeader));
}

#[test]
fn frame_exhaustion_is_fatal() {
    let mut img = elf_image(0x3000, 2, 0, &[[1, 6, 0x1000, 0x200000, 0x1800, 0x3000]]);
    let mut pt = KernelPageTable::new();
    let mut fa = BootFrames::new(vec![]);
    let r = load_kernel(KO, &mut img, &mut pt, &mut fa);
    assert_eq!(r.err(), Some(LoadError::FrameAllocationFailed));
}

fn dyn_image_with_dynamic(entries: &[(u64, u64)]) -> Vec<u8> {
    let mut img = elf_image(
        0x3000,
        3,
        0,
        &[
            [1, 6, 0x1000, 0, 0x1000, 0x1000],
            [2, 6, 0x2000, 0x2000, (entries.len() * 16) as u64, (entries.len() * 16) as u64],
        ],
    );
    for (i, (tag, val)) in entries.iter().enumerate() {
        put64(&mut img, 0x2000 + 16 * i, *tag);
        put64(&mut img, 0x2008 + 16 * i, *val);
    }
    img
}

fn run(img: &mut Vec<u8>) -> Result<(), LoadError> {
    let mut pt = KernelPageTable::new();
    let mut fa = BootFrames::new(vec![]);
    load_kernel(KO, img, &mut pt, &mut fa).map(|_| ())
}

#[test]
fn duplicate_rela_entry() {
    let mut img = dyn_image_with_dynamic(&[(7, 0x2800), (7, 0x2800)]);
    assert_eq!(run(&mut img).err(), Some(LoadError::MultipleRela));
}

#[test]
fn duplicate_rela_size_entry() {
    let mut img = dyn_image_with_dynamic(&[(8, 24), (8, 24)]);
    assert_eq!(run(&mut img).err(), Some(LoadError::MultipleRelaSize));
}

#[test]
fn duplicate_rela_ent_entry() {
    let mut img = dyn_image_with_dynamic(&[(9, 24), (9, 24)]);
    assert_eq!(run(&mut img).err(), Some(LoadError::MultipleRelaEnt));
}

#[test]
fn rela_size_without_rela() {
    let mut img = dyn_image_with_dynamic(&[(8, 24)]);
    assert_eq!(run(&mut img).err(), Some(LoadError::StrayRelaInfo));
}

#[test]
fn rela_without_size() {
    let mut img = dyn_image_with_dynamic(&[(7, 0x2800), (9, 24)]);
    assert_eq!(run(&mut img).err(), Some(LoadError::RelaSizeMissing));
}

#[test]
fn rela_without_ent() {
    let mut img = dyn_image_with_dynamic(&[(7, 0x2800), (8, 24)]);
    assert_eq!(run(&mut img).err(), Some(LoadError::RelaEntMissing));
}

#[test]
fn rela_ent_zero() {
    let mut img = dyn_image_with_dynamic(&[(7, 0x2800), (8, 24), (9, 0)]);
    assert_eq!(run(&mut img).err(), Some(LoadError::InvalidRelaEnt));
}

#[test]
fn rela_table_out_of_bounds() {
    let mut img = dyn_image_with_dynamic(&[(7, 0x2ff0), (8, 48), (9, 24)]);
    assert_eq!(run(&mut img).err(), Some(LoadError::RelaTableOutOfBounds));
}

#[test]
fn symbol_relocation_unsupported() {
    let mut img = dyn_image_with_dynamic(&[(7, 0x2800), (8, 24), (9, 24)]);
    put64(&mut img, 0x2800, 0);
    put64(&mut img, 0x2808, (1u64 << 32) | 8); // symbol-table index 1
    put64(&mut img, 0x2810, 0x50);
    assert_eq!(run(&mut img).err(), Some(LoadError::SymbolRelocationUnsupported));
}

#[test]
fn relocation_destination_unmapped() {
    let mut img = dyn_image_with_dynamic(&[(7, 0x2800), (8, 24), (9, 24)]);
    put64(&mut img, 0x2800, 0x999999); // no PT_LOAD covers this address
    put64(&mut img, 0x2808, 8);
    put64(&mut img, 0x2810, 0x50);
    assert_eq!(run(&mut img).err(), Some(LoadError::RelocationDestinationUnmapped));
}

#[test]
fn relocation_addend_overflow() {
    let mut img = dyn_image_with_dynamic(&[(7, 0x2800), (8, 24), (9, 24)]);
    put64(&mut img, 0x2800, 0);
    put64(&mut img, 0x2808, 8);
    put64(&mut img, 0x2810, u64::MAX); // 0x400000 + MAX overflows
    assert_eq!(run(&mut img).err(), Some(LoadError::RelocationOverflow));
}

#[test]
fn high_half_usage_bits() {
    // a load segment covering the start of top-level slots 1 and 2
    let mut img = elf_image(
        0x3000,
        2,
        0x100000,
        &[
            [1, 5, 0x1000, 0x7ffffff000, 0x1000, 0x1000],
            [1, 5, 0x2000, 0x8000000000, 0x1000, 0x1000],
        ],
    );
    let mut pt = KernelPageTable::new();
    let mut fa = BootFrames::new(vec![]);
    let out = load_kernel(KO, &mut img, &mut pt, &mut fa).unwrap();
    assert!(out.used_entries.get(0));
    assert!(out.used_entries.get(1));
    for i in 2..512 {
        assert!(!out.used_entries.get(i));
    }
}

#[test]
fn read_only_segment_flags() {
    let mut img = elf_image(0x2000, 2, 0x300000, &[[1, 4, 0x1000, 0x300000, 0x1000, 0x1000]]);
    let mut pt = KernelPageTable::new();
    let mut fa = BootFrames::new(vec![]);
    load_kernel(KO, &mut img, &mut pt, &mut fa).unwrap();
    let t = pt.translate(0x300000).unwrap();
    assert_eq!(
        t.flags,
        PageFlags { present: true, writable: false, no_execute: true }
    );
}

#[test]
fn aligned_bss_tail_needs_no_copy() {
    // file part ends exactly at a page boundary: no split tail, one fresh
    // zero page
    let mut img = elf_image(0x2000, 2, 0x200000, &[[1, 6, 0x1000, 0x200000, 0x1000, 0x2000]]);
    for i in 0..0x1000usize {
        img[0x1000 + i] = 0x5a;
    }
    let snapshot = img.clone();
    let mut pt = KernelPageTable::new();
    let mut fa = BootFrames::new(vec![0x900000]);
    let out = load_kernel(KO, &mut img, &mut pt, &mut fa).unwrap();
    // the file page still maps the original frame
    assert_eq!(pt.translate(0x200000).unwrap().frame, KO + 0x1000);
    let zero = pt.translate(0x201000).unwrap();
    assert_eq!(zero.frame, 0x900000);
    let zc = out.fresh_frames.iter().find(|f| f.frame == 0x900000).unwrap();
    assert!(zc.bytes.iter().all(|b| *b == 0));
    assert_eq!(out.fresh_frames.len(), 1);
    assert_eq!(img, snapshot);
}

#[test]
fn overlapping_loads_conflict() {
    // two loadable segments claiming the same page: the second map is a
    // pre-existing conflict
    let mut img = elf_image(
        0x3000,
        2,
        0x100000,
        &[
            [1, 5, 0x1000, 0x100000, 0x1000, 0x1000],
            [1, 5, 0x2000, 0x100000, 0x1000, 0x1000],
        ],
    );
    let mut pt = KernelPageTable::new();
    let mut fa = BootFrames::new(vec![]);
    let r = load_kernel(KO, &mut img, &mut pt, &mut fa);
    assert_eq!(r.err(), Some(LoadError::MapToFailed));
}
