//! Unit tests for the loader's components: byte stores, the page-table
//! model, the frame pool, the offset finder, header sanity and the usage
//! summary.

use kernel_loader::bytes::{read_u64, write_u64};
use kernel_loader::elf::{check_phdrs, find_offset, Phdr};
use kernel_loader::errors::LoadError;
use kernel_loader::paging::{BootFrames, KernelPageTable, PageFlags};
use kernel_loader::usage::used_level_4_entries;

fn flags() -> PageFlags {
    PageFlags { present: true, writable: false, no_execute: true }
}

fn load_phdr(offset: u64, vaddr: u64, filesz: u64, memsz: u64) -> Phdr {
    Phdr { ptype: 1, flags: 4, offset, vaddr, filesz, memsz }
}

#[test]
fn word_store_round_trips() {
    let mut v = vec![0xaau8; 24];
    write_u64(&mut v, 8, 0x0123_4567_89ab_cdef);
    assert_eq!(read_u64(&v, 8), 0x0123_4567_89ab_cdef);
    assert_eq!(v[8], 0xef);
    assert_eq!(v[15], 0x01);
    // neighbours untouched
    assert_eq!(v[7], 0xaa);
    assert_eq!(v[16], 0xaa);
}

#[test]
fn page_table_maps_and_unmaps() {
    let mut pt = KernelPageTable::new();
    assert!(pt.map_to(0x1000, 0x5000, flags()).is_ok());
    assert!(pt.map_to(0x2000, 0x6000, flags()).is_ok());
    // a pre-existing mapping is a conflict
    assert!(pt.map_to(0x1000, 0x7000, flags()).is_err());
    let t = pt.translate(0x1000).unwrap();
    assert_eq!(t.frame, 0x5000);
    let got = pt.unmap(0x1000).unwrap();
    assert_eq!(got.frame, 0x5000);
    assert!(pt.translate(0x1000).is_none());
    // unmapping an absent page is rejected
    assert!(pt.unmap(0x1000).is_err());
    // the other mapping is untouched
    assert_eq!(pt.translate(0x2000).unwrap().frame, 0x6000);
}

#[test]
fn frame_pool_hands_out_back_to_front() {
    let mut fa = BootFrames::new(vec![0x1000, 0x2000, 0x3000]);
    assert_eq!(fa.allocate(), Some(0x3000));
    assert_eq!(fa.allocate(), Some(0x2000));
    assert_eq!(fa.allocate(), Some(0x1000));
    assert_eq!(fa.allocate(), None);
}

#[test]
fn offset_finder_uses_first_matching_load() {
    let phs = vec![
        Phdr { ptype: 7, flags: 4, offset: 0, vaddr: 0, filesz: 0x20, memsz: 0x40 },
        load_phdr(0x1000, 0x10000, 0x800, 0x800),
        load_phdr(0x2000, 0x10000, 0x1000, 0x1000),
    ];
    // inside the first load's file range
    assert_eq!(find_offset(&phs, 0x10000), Some(0x1000));
    assert_eq!(find_offset(&phs, 0x107ff), Some(0x17ff));
    // past the first load's file size, the second one matches
    assert_eq!(find_offset(&phs, 0x10800), Some(0x2800));
    // below every segment, and past all of them
    assert_eq!(find_offset(&phs, 0xffff), None);
    assert_eq!(find_offset(&phs, 0x11000), None);
}

#[test]
fn sanity_accepts_congruent_headers() {
    let phs = vec![load_phdr(0x1800, 0x100800, 0x100, 0x200)];
    assert!(check_phdrs(&phs, 0, 0x4000).is_ok());
}

#[test]
fn sanity_rejects_address_wraparound() {
    let phs = vec![load_phdr(0x1000, u64::MAX - 0xfff, 0x100, 0x100)];
    assert_eq!(
        check_phdrs(&phs, 0x400000, 0x4000).err(),
        Some(LoadError::AddressOverflow)
    );
}

#[test]
fn usage_summary_covers_multiple_slots() {
    // one segment spanning the boundary between slots 0 and 1
    let phs = vec![load_phdr(0x1000, 0x7fffffe000, 0x1000, 0x3000)];
    let u = used_level_4_entries(&phs, 0);
    assert!(u.get(0));
    assert!(u.get(1));
    for i in 2..512 {
        assert!(!u.get(i));
    }
}

#[test]
fn usage_summary_ignores_empty_and_non_load() {
    let phs = vec![
        load_phdr(0x1000, 0x100000, 0x1000, 0),
        Phdr { ptype: 2, flags: 4, offset: 0, vaddr: 0x100000, filesz: 0x40, memsz: 0x40 },
    ];
    let u = used_level_4_entries(&phs, 0);
    for i in 0..512 {
        assert!(!u.get(i));
    }
}

#[test]
fn usage_summary_applies_displacement() {
    // vaddr 0 displaced by the PIE base still lands in slot 0
    let phs = vec![load_phdr(0x1000, 0, 0x1000, 0x1000)];
    let u = used_level_4_entries(&phs, 0x400000);
    assert!(u.get(0));
    // displaced into slot 3
    let u2 = used_level_4_entries(&phs, 3 * 0x80_0000_0000);
    assert!(!u2.get(0));
    assert!(u2.get(3));
}

#[test]
fn usage_summary_saturates() {
    // a segment spanning more than all 512 top-level slots marks them all
    let phs = vec![load_phdr(0x1000, 0, 0x1000, 513 * 0x80_0000_0000)];
    let u = used_level_4_entries(&phs, 0);
    for i in 0..512 {
        assert!(u.get(i));
    }
}
