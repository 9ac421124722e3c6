//! Installing `PT_LOAD` segments: mapping file-backed pages, materialising
//! the zero-initialised tail of segments whose memory size exceeds their
//! file size, recording the TLS template, and the top-level `load_kernel`
//! entry point.

use vstd::prelude::*;
use vstd::seq_lib::*;
use crate::arith::{page_of, page_off, lemma_page, lemma_page_monotone,
    lemma_page_aligned_add, lemma_aligned_unique, lemma_page_of_interior,
    lemma_div_mod_split, align_down};
use crate::elf::{Phdr, PT_LOAD, PT_DYNAMIC, PT_TLS, ET_EXEC, ET_DYN, PIE_OFFSET, phdr_ok,
    phdrs_ok, check_phdrs, parse_header, parse_phdrs, spec_header, spec_phdrs, spec_voff,
    header_structure_ok, phdr_table_ok};
use crate::usage::{UsedLevel4Entries, used_level_4_entries, covers};
use crate::reloc::{WriteOp, apply_writes, write_laws, writes_disjoint};
use crate::errors::LoadError;
use crate::paging::{PageFlags, MapTarget, KernelPageTable, BootFrames, FrameContents,
    fresh_keyed, fresh_bytes, fresh_distinct, lemma_fresh_push};

verus! {

/// Page flags derived from a segment's ELF flags: always present,
/// writable iff the segment is writable, no-execute unless executable.
pub open spec fn flags_of(eflags: u32) -> PageFlags {
    PageFlags {
        present: true,
        writable: (eflags & 2) != 0,
        no_execute: (eflags & 1) == 0,
    }
}

pub fn flags_for(eflags: u32) -> (r: PageFlags)
    ensures
        r == flags_of(eflags),
{
    PageFlags {
        present: true,
        writable: (eflags & 2) != 0,
        no_execute: (eflags & 1) == 0,
    }
}

/// Displaced virtual start of a segment.
pub open spec fn vstart(ph: Phdr, voff: u64) -> u64 {
    (ph.vaddr + voff) as u64
}

/// Physical address of a segment's first file byte.
pub open spec fn pstart(ph: Phdr, ko: u64) -> u64 {
    (ko + ph.offset) as u64
}

/// Bytes of virtual address space a segment occupies.
pub open spec fn seg_span(ph: Phdr) -> int {
    if ph.filesz > ph.memsz {
        ph.filesz as int
    } else {
        ph.memsz as int
    }
}

/// First address of the zero-initialised tail.
pub open spec fn zstart(ph: Phdr, voff: u64) -> u64 {
    (ph.vaddr + voff + ph.filesz) as u64
}

/// One past the last address of the segment's memory image.
pub open spec fn zend(ph: Phdr, voff: u64) -> u64 {
    (ph.vaddr + voff + ph.memsz) as u64
}

/// Data bytes that share the split tail page with the zero tail.
pub open spec fn dbz_of(ph: Phdr, voff: u64) -> u64 {
    page_off(zstart(ph, voff))
}

/// The split tail page.
pub open spec fn tailpage(ph: Phdr, voff: u64) -> u64 {
    page_of((zstart(ph, voff) - 1) as u64)
}

/// First wholly zero-initialised page (as an unbounded integer: it may lie
/// just past the address space).
pub open spec fn zfirst(ph: Phdr, voff: u64) -> int {
    if dbz_of(ph, voff) == 0 {
        zstart(ph, voff) as int
    } else {
        page_of(zstart(ph, voff)) + 4096
    }
}

/// Pages the handling of this segment may install or replace.
pub open spec fn in_seg_pages(ph: Phdr, voff: u64, p: u64) -> bool {
    &&& seg_span(ph) > 0
    &&& page_off(p) == 0
    &&& page_of(vstart(ph, voff)) <= p
    &&& p <= page_of((ph.vaddr + voff + seg_span(ph) - 1) as u64)
}

/// Pages the zero-tail handling may install or replace.
pub open spec fn bss_touched(ph: Phdr, voff: u64, p: u64) -> bool {
    &&& page_off(p) == 0
    &&& {
        ||| (dbz_of(ph, voff) != 0 && p == tailpage(ph, voff))
        ||| (zfirst(ph, voff) <= p && p <= page_of((zend(ph, voff) - 1) as u64))
    }
}

/// A frame fit to hold fresh kernel data: page-aligned, wholly addressable,
/// and disjoint from the ELF image.
pub open spec fn frame_fresh_ok(f: u64, ko: u64, img_len: int) -> bool {
    &&& f % 4096 == 0
    &&& f + 4095 <= u64::MAX
    &&& (f >= ko + img_len || f + 4096 <= ko)
}

/// The allocator pool holds distinct fresh frames.
pub open spec fn pool_wf(free: Seq<u64>, ko: u64, img_len: int) -> bool {
    &&& (forall|i: int| 0 <= i < free.len() ==> frame_fresh_ok(#[trigger] free[i], ko, img_len))
    &&& (forall|i: int, j: int| 0 <= i < j < free.len() ==> free[i] != free[j])
}

/// Pool and written-frame records together: all frames fresh and distinct,
/// every record holds exactly one page of bytes, and no written frame is
/// still in the pool.
pub open spec fn mem_wf(free: Seq<u64>, fresh: Seq<FrameContents>, ko: u64, img_len: int) -> bool {
    &&& pool_wf(free, ko, img_len)
    &&& (forall|i: int| 0 <= i < fresh.len() ==> frame_fresh_ok(
            (#[trigger] fresh[i]).frame, ko, img_len) && fresh[i].bytes@.len() == 4096)
    &&& fresh_distinct(fresh)
    &&& (forall|i: int, j: int| #![trigger free[i], fresh[j]] 0 <= i < free.len()
            && 0 <= j < fresh.len() ==> free[i] != fresh[j].frame)
}

/// The byte visible at virtual address `va` through the page table: either
/// a byte of the (relocated) file image, or a byte of a freshly written
/// frame.
pub open spec fn mapped_byte(
    pt: Map<u64, MapTarget>,
    fresh: Seq<FrameContents>,
    img: Seq<u8>,
    ko: u64,
    va: u64,
) -> Option<u8> {
    if pt.contains_key(page_of(va)) {
        let t = pt[page_of(va)];
        if ko <= t.frame && t.frame < ko + img.len() {
            if t.frame - ko + page_off(va) < img.len() {
                Some(img[t.frame - ko + page_off(va)])
            } else {
                None
            }
        } else if fresh_keyed(fresh, t.frame) {
            Some(fresh_bytes(fresh, t.frame)[page_off(va) as int])
        } else {
            None
        }
    } else {
        None
    }
}

/// The whole effect of loading one `PT_LOAD` segment: every address of the
/// segment is mapped with the segment's flags; file-backed addresses read
/// the segment's (relocated) file bytes; tail addresses read zero.
pub open spec fn segment_loaded(
    ph: Phdr,
    voff: u64,
    ko: u64,
    img: Seq<u8>,
    pt: Map<u64, MapTarget>,
    fresh: Seq<FrameContents>,
) -> bool {
    forall|va: u64| ph.vaddr + voff <= va && va < ph.vaddr + voff + seg_span(ph) ==> {
        &&& pt.contains_key(#[trigger] page_of(va))
        &&& pt[page_of(va)].flags == flags_of(ph.flags)
        &&& (va - (ph.vaddr + voff) < ph.filesz ==> mapped_byte(pt, fresh, img, ko, va)
            == Some(img[ph.offset + (va - (ph.vaddr + voff))]))
        &&& (ph.filesz <= va - (ph.vaddr + voff) && va - (ph.vaddr + voff) < ph.memsz
            ==> mapped_byte(pt, fresh, img, ko, va) == Some(0u8))
        &&& (va - (ph.vaddr + voff) < ph.filesz && (ph.memsz <= ph.filesz
            || dbz_of(ph, voff) == 0 || page_of(va) != tailpage(ph, voff))
            ==> pt[page_of(va)].frame == pstart(ph, ko) - page_off(pstart(ph, ko))
                + (page_of(va) - page_of(vstart(ph, voff))))
    }
}

/// A page of this segment is mapped to a fresh all-zero frame.
pub open spec fn zero_mapped(
    pt: Map<u64, MapTarget>,
    fresh: Seq<FrameContents>,
    ko: u64,
    img_len: int,
    p: u64,
    flags: PageFlags,
) -> bool {
    &&& pt.contains_key(p)
    &&& pt[p].flags == flags
    &&& !(ko <= pt[p].frame && pt[p].frame < ko + img_len)
    &&& fresh_keyed(fresh, pt[p].frame)
    &&& fresh_bytes(fresh, pt[p].frame).len() == 4096
    &&& (forall|b: int| 0 <= b < 4096 ==> fresh_bytes(fresh, pt[p].frame)[b] == 0u8)
}

/// A fresh frame popped from the pool may be recorded with one page of
/// bytes; the pool and record invariants survive.
proof fn lemma_alloc_push(
    free: Seq<u64>,
    fresh: Seq<FrameContents>,
    ko: u64,
    img_len: int,
    fc: FrameContents,
)
    requires
        mem_wf(free, fresh, ko, img_len),
        free.len() > 0,
        fc.frame == free.last(),
        fc.bytes@.len() == 4096,
    ensures
        !fresh_keyed(fresh, fc.frame),
        frame_fresh_ok(fc.frame, ko, img_len),
        mem_wf(free.drop_last(), fresh.push(fc), ko, img_len),
        fresh_keyed(fresh.push(fc), fc.frame),
        fresh_bytes(fresh.push(fc), fc.frame) == fc.bytes@,
        forall|g: u64| g != fc.frame ==> (#[trigger] fresh_keyed(fresh.push(fc), g))
            == fresh_keyed(fresh, g),
        forall|g: u64| g != fc.frame && fresh_keyed(fresh, g) ==>
            #[trigger] fresh_bytes(fresh.push(fc), g) == fresh_bytes(fresh, g),
{
    let n = free.len() - 1;
    assert(free[n] == free.last());
    assert(frame_fresh_ok(free[n], ko, img_len));
    if fresh_keyed(fresh, fc.frame) {
        let j = choose|j: int| 0 <= j < fresh.len() && fresh[j].frame == fc.frame;
        assert(free[n] != fresh[j].frame);
    }
    lemma_fresh_push(fresh, fc.frame, fc.bytes@, fresh.push(fc));
    let free2 = free.drop_last();
    let fresh2 = fresh.push(fc);
    assert forall|i: int| 0 <= i < free2.len() implies frame_fresh_ok(
        #[trigger] free2[i], ko, img_len) by {
        assert(free2[i] == free[i]);
    }
    assert forall|i: int, j: int| #![trigger free2[i], fresh2[j]] 0 <= i < free2.len()
        && 0 <= j < fresh2.len() implies free2[i] != fresh2[j].frame by {
        assert(free2[i] == free[i]);
        if j < fresh.len() {
            assert(free[i] != fresh[j].frame);
        } else {
            assert(fresh2[j].frame == free[n]);
            assert(free[i] != free[n]);
        }
    }
}

/// Popping a frame without recording anything also keeps the invariants.
proof fn lemma_alloc_only(free: Seq<u64>, fresh: Seq<FrameContents>, ko: u64, img_len: int)
    requires
        mem_wf(free, fresh, ko, img_len),
        free.len() > 0,
    ensures
        mem_wf(free.drop_last(), fresh, ko, img_len),
{
    let free2 = free.drop_last();
    assert forall|i: int| 0 <= i < free2.len() implies frame_fresh_ok(
        #[trigger] free2[i], ko, img_len) by {
        assert(free2[i] == free[i]);
    }
    assert forall|i: int, j: int| #![trigger free2[i], fresh[j]] 0 <= i < free2.len()
        && 0 <= j < fresh.len() implies free2[i] != fresh[j].frame by {
        assert(free2[i] == free[i]);
        assert(free[i] != fresh[j].frame);
    }
}

/// A page-aligned value is its own page base.
proof fn lemma_page_of_aligned(a: u64)
    requires
        a % 4096 == 0,
    ensures
        page_of(a) == a,
        page_off(a) == 0,
{
    lemma_page(a);
    lemma_aligned_unique(page_of(a), a);
}

/// Fresh frames the zero-tail handling consumes: one for a split tail
/// page, one per wholly zero-initialised page.
pub open spec fn bss_frames_needed(ph: Phdr, voff: u64) -> int {
    (if dbz_of(ph, voff) != 0 {
        1int
    } else {
        0int
    }) + (if zfirst(ph, voff) <= page_of((zend(ph, voff) - 1) as u64) {
        (page_of((zend(ph, voff) - 1) as u64) - zfirst(ph, voff)) / 4096 + 1
    } else {
        0int
    })
}

/// Map and fill the zero-initialised tail of a segment whose memory size
/// exceeds its file size: replace the split tail page (if any) by a fresh
/// frame holding the data bytes followed by zeros, then map fresh zeroed
/// frames for the remaining pages.
#[verifier::rlimit(100)]
pub fn handle_bss_section(
    ph: Phdr,
    ko: u64,
    voff: u64,
    flags: PageFlags,
    img: &Vec<u8>,
    pt: &mut KernelPageTable,
    fa: &mut BootFrames,
    fresh: &mut Vec<FrameContents>,
) -> (r: Result<(), LoadError>)
    requires
        ph.ptype == PT_LOAD,
        ph.memsz > ph.filesz,
        phdr_ok(ph, voff, img@.len() as int),
        ko % 4096 == 0,
        voff % 4096 == 0,
        ko + img@.len() <= u64::MAX,
        flags == flags_of(ph.flags),
        old(pt).wf(),
        mem_wf(old(fa)@, old(fresh)@, ko, img@.len() as int),
    ensures
        final(pt).wf(),
        mem_wf(final(fa)@, final(fresh)@, ko, img@.len() as int),
        old(fresh)@.is_prefix_of(final(fresh)@),
        fresh_distinct(final(fresh)@),
        forall|p: u64| !bss_touched(ph, voff, p) ==> (final(pt)@.contains_key(p)
            == old(pt)@.contains_key(p)) && (old(pt)@.contains_key(p)
            ==> final(pt)@[p] == old(pt)@[p]),
        forall|p: u64| old(pt)@.contains_key(p) ==> final(pt)@.contains_key(p),
        r is Ok ==> forall|va: u64| zstart(ph, voff) <= va && va < zend(ph, voff)
            ==> final(pt)@.contains_key(#[trigger] page_of(va))
                && final(pt)@[page_of(va)].flags == flags
                && mapped_byte(final(pt)@, final(fresh)@, img@, ko, va) == Some(0u8),
        r is Ok && dbz_of(ph, voff) != 0 ==> forall|va: u64|
            page_of(va) == tailpage(ph, voff) && ph.vaddr + voff <= va
                && va < zstart(ph, voff)
            ==> final(pt)@.contains_key(#[trigger] page_of(va))
                && final(pt)@[page_of(va)].flags == flags
                && mapped_byte(final(pt)@, final(fresh)@, img@, ko, va)
                    == Some(img@[ph.offset + (va - (ph.vaddr + voff))]),
        r is Ok ==> old(fa)@.len() + old(fresh)@.len()
            == final(fa)@.len() + final(fresh)@.len(),
        r is Ok ==> forall|p: u64| #[trigger] bss_touched(ph, voff, p)
            ==> final(pt)@.contains_key(p) && final(pt)@[p].flags == flags
                && !(ko <= final(pt)@[p].frame
                    && final(pt)@[p].frame < ko + img@.len())
                && fresh_keyed(final(fresh)@, final(pt)@[p].frame),
        r is Ok ==> forall|p1: u64, p2: u64| #[trigger] bss_touched(ph, voff, p1)
            && #[trigger] bss_touched(ph, voff, p2) && p1 != p2
            ==> final(pt)@[p1].frame != final(pt)@[p2].frame,
        (old(fa)@.len() >= bss_frames_needed(ph, voff)
            && (dbz_of(ph, voff) != 0 ==> old(pt)@.contains_key(tailpage(ph, voff)))
            && (forall|p: u64| page_off(p) == 0 && zfirst(ph, voff) <= p
                && p <= page_of((zend(ph, voff) - 1) as u64)
                ==> !(#[trigger] old(pt)@.contains_key(p)))) ==> r is Ok,
        r == Err::<(), LoadError>(LoadError::FrameAllocationFailed)
            ==> old(fa)@.len() < bss_frames_needed(ph, voff),
        r == Err::<(), LoadError>(LoadError::BssUnmapFailed)
            ==> dbz_of(ph, voff) != 0
                && !old(pt)@.contains_key(tailpage(ph, voff)),
        r == Err::<(), LoadError>(LoadError::BssMapFailed)
            ==> exists|p: u64| page_off(p) == 0 && zfirst(ph, voff) <= p
                && p <= page_of((zend(ph, voff) - 1) as u64)
                && (#[trigger] old(pt)@.contains_key(p)),
        r matches Err(e2) ==> (e2 == LoadError::FrameAllocationFailed
            || e2 == LoadError::BssUnmapFailed || e2 == LoadError::BssRemapFailed
            || e2 == LoadError::BssMapFailed),
{
    let ghost len = img@.len() as int;
    let ilen: usize = img.len();
    let vs: u64 = ph.vaddr + voff;
    let ps: u64 = ko + ph.offset;
    let zs: u64 = vs + ph.filesz;
    let ze: u64 = vs + ph.memsz;
    let dbz: u64 = zs % 4096;
    proof {
        lemma_page(zs);
        lemma_page(ze);
        // The physical end of the file part is congruent to the virtual one.
        lemma_page_aligned_add(voff, (ph.vaddr + ph.filesz) as u64);
        lemma_page_aligned_add(ko, (ph.offset + ph.filesz) as u64);
        vstd::arithmetic::div_mod::lemma_add_mod_noop(
            ph.offset as int, ph.filesz as int, 4096);
        vstd::arithmetic::div_mod::lemma_add_mod_noop(
            ph.vaddr as int, ph.filesz as int, 4096);
        assert(page_off((ps + ph.filesz) as u64) == dbz);
    }
    let ghost mut bufg: Seq<u8> = Seq::empty();
    let ghost mut tf: u64 = 0;
    if dbz != 0 {
        proof {
            // zs >= 1 and ps + filesz >= 1, since both have nonzero page
            // offset; the tail page and the original frame decompose.
            lemma_page_of_interior(zs, (zs - 1) as u64);
            lemma_page_of_interior((ps + ph.filesz) as u64,
                (ps + ph.filesz - 1) as u64);
        }
        let orig_frame: u64 = align_down(ps + ph.filesz - 1);
        let new_frame: u64 = match fa.allocate() {
            Some(f) => f,
            None => {
                proof {
                    assert(fresh@.is_prefix_of(fresh@));
                    if zfirst(ph, voff) <= page_of((ze - 1) as u64) {
                        lemma_div_mod_split(
                            page_of((zend(ph, voff) - 1) as u64) - zfirst(ph, voff),
                            4096);
                    }
                    assert(bss_frames_needed(ph, voff) >= 1);
                }
                return Err(LoadError::FrameAllocationFailed);
            },
        };
        let copy_start: u64 = orig_frame - ko;
        proof {
            assert(orig_frame == ps + ph.filesz - dbz);
            assert(copy_start + dbz == ph.offset + ph.filesz);
        }
        let mut buf: Vec<u8> = Vec::new();
        let mut j: usize = 0;
        while j < 4096
            invariant
                dbz < 4096,
                copy_start + dbz <= img@.len(),
                img@.len() <= usize::MAX,
                j <= 4096,
                buf@.len() == j,
                forall|t: int| 0 <= t < j ==> buf@[t] == (if t < dbz {
                    img@[copy_start + t]
                } else {
                    0u8
                }),
            decreases 4096 - j,
        {
            if (j as u64) < dbz {
                buf.push(img[copy_start as usize + j]);
            } else {
                buf.push(0u8);
            }
            j += 1;
        }
        let last_page: u64 = align_down(vs + ph.filesz - 1);
        proof {
            assert(last_page == tailpage(ph, voff));
        }
        match pt.unmap(last_page) {
            Ok(_) => {},
            Err(_) => {
                proof {
                    lemma_alloc_only(old(fa)@, fresh@, ko, len);
                    assert(fresh@.is_prefix_of(fresh@));
                    assert(!old(pt)@.contains_key(tailpage(ph, voff)));
                }
                return Err(LoadError::BssUnmapFailed);
            },
        }
        match pt.map_to(last_page, new_frame, flags) {
            Ok(_) => {},
            Err(_) => {
                proof {
                    lemma_alloc_only(old(fa)@, fresh@, ko, len);
                    assert(fresh@.is_prefix_of(fresh@));
                }
                return Err(LoadError::BssRemapFailed);
            },
        }
        proof {
            bufg = buf@;
            tf = new_frame;
            lemma_alloc_push(old(fa)@, fresh@, ko, len,
                FrameContents { frame: new_frame, bytes: buf });
        }
        let fc = FrameContents { frame: new_frame, bytes: buf };
        fresh.push(fc);
        proof {
            assert(fresh@.drop_last() =~= old(fresh)@);
            assert(old(fresh)@.is_prefix_of(fresh@));
            assert(pt@[tailpage(ph, voff)] == MapTarget { frame: tf, flags });
        }
    }
    let ghost pt_mid = pt@;
    let ghost fresh_mid = fresh@;
    let ghost tail_used: int = if dbz != 0 { 1int } else { 0int };
    proof {
        assert(fa@.len() as int == old(fa)@.len() - tail_used);
        assert(fresh_mid.len() as int == old(fresh)@.len() + tail_used);
        assert forall|p: u64| dbz == 0 || p != tailpage(ph, voff) implies
            (pt_mid.contains_key(p) == old(pt)@.contains_key(p))
            && (old(pt)@.contains_key(p) ==> pt_mid[p] == old(pt)@[p]) by {}
        if dbz != 0 {
            assert(fresh_keyed(fresh_mid, tf));
            assert(fresh_bytes(fresh_mid, tf) == bufg);
            assert(frame_fresh_ok(tf, ko, len));
        }
        assert(fresh_mid.is_prefix_of(fresh_mid));
    }
    // Map fresh zeroed frames for the wholly zero-initialised pages.
    let start0_opt: Option<u64> = if dbz == 0 {
        Some(zs)
    } else {
        let base = zs - dbz;
        if base <= u64::MAX - 4096 {
            Some(base + 4096)
        } else {
            None
        }
    };
    proof {
        if start0_opt is Some {
            assert(start0_opt.unwrap() as int == zfirst(ph, voff));
            assert(start0_opt.unwrap() % 4096 == 0) by {
                vstd::arithmetic::div_mod::lemma_mod_sub_multiples_vanish(
                    zfirst(ph, voff) - 4096, 4096);
            }
        } else {
            assert(zfirst(ph, voff) > u64::MAX);
        }
    }
    if let Some(start0) = start0_opt {
        let end_page: u64 = align_down(ze - 1);
        if start0 <= end_page {
            proof {
                vstd::arithmetic::div_mod::lemma_sub_mod_noop(
                    end_page as int, start0 as int, 4096);
                vstd::arithmetic::div_mod::lemma_small_mod(0nat, 4096nat);
                lemma_div_mod_split((end_page - start0) as int, 4096);
                lemma_page((ze - 1) as u64);
            }
            let npages: u64 = (end_page - start0) / 4096 + 1;
            proof {
                assert((end_page - start0) % 4096 == 0);
                assert((npages - 1) * 4096 == end_page - start0) by (nonlinear_arith)
                    requires
                        npages == (end_page - start0) as int / 4096 + 1,
                        (end_page - start0) % 4096 == 0,
                        end_page >= start0,
                    ;
            }
            let ghost fa_mid_len = fa@.len() as int;
            let mut i: u64 = 0;
            while i < npages
                invariant
                    fa@.len() as int == fa_mid_len - i,
                    fa_mid_len == old(fa)@.len() - tail_used,
                    tail_used == (if dbz != 0 { 1int } else { 0int }),
                    fresh@.len() as int == fresh_mid.len() + i,
                    fresh_mid.len() as int == old(fresh)@.len() + tail_used,
                    forall|p: u64| dbz == 0 || p != tailpage(ph, voff) ==>
                        (pt_mid.contains_key(p) == old(pt)@.contains_key(p))
                        && (old(pt)@.contains_key(p) ==> pt_mid[p] == old(pt)@[p]),
                    forall|p1: u64, p2: u64| page_off(p1) == 0 && start0 <= p1
                        && p1 < start0 + i * 4096 && page_off(p2) == 0
                        && start0 <= p2 && p2 < start0 + i * 4096 && p1 != p2
                        ==> (#[trigger] pt@[p1]).frame != (#[trigger] pt@[p2]).frame,
                    dbz != 0 ==> forall|p: u64| page_off(p) == 0 && start0 <= p
                        && p < start0 + i * 4096 ==> (#[trigger] pt@[p]).frame != tf,
                    ph.memsz > ph.filesz,
                    phdr_ok(ph, voff, len),
                    len == img@.len(),
                    ko % 4096 == 0,
                    voff % 4096 == 0,
                    ko + len <= u64::MAX,
                    dbz == dbz_of(ph, voff),
                    start0 % 4096 == 0,
                    start0 as int == zfirst(ph, voff),
                    end_page == page_of((zend(ph, voff) - 1) as u64),
                    (npages - 1) * 4096 == end_page - start0,
                    i <= npages,
                    pt.wf(),
                    mem_wf(fa@, fresh@, ko, len),
                    fresh_mid.is_prefix_of(fresh@),
                    old(fresh)@.is_prefix_of(fresh@),
                    fresh_mid == old(fresh)@ || (fresh_mid.len() == old(fresh)@.len() + 1),
                    dbz != 0 ==> fresh_keyed(fresh@, tf)
                        && fresh_bytes(fresh@, tf) == bufg
                        && frame_fresh_ok(tf, ko, len),
                    forall|p: u64| page_off(p) == 0 && start0 <= p
                        && p < start0 + i * 4096 ==> zero_mapped(pt@, fresh@, ko, len,
                        p, flags),
                    forall|p: u64| #![trigger page_off(p)] #![trigger pt@.contains_key(p)]
                        #![trigger pt_mid.contains_key(p)]
                        !(page_off(p) == 0 && start0 <= p
                        && p < start0 + i * 4096) ==> (pt@.contains_key(p)
                        == pt_mid.contains_key(p)) && (pt_mid.contains_key(p)
                        ==> pt@[p] == pt_mid[p]),
                    forall|p: u64| #![trigger bss_touched(ph, voff, p)]
                        #![trigger pt_mid.contains_key(p)]
                        #![trigger old(pt)@.contains_key(p)]
                        !bss_touched(ph, voff, p) ==> (pt_mid.contains_key(p)
                        == old(pt)@.contains_key(p)) && (old(pt)@.contains_key(p)
                        ==> pt_mid[p] == old(pt)@[p]),
                    forall|p: u64| old(pt)@.contains_key(p) ==> pt_mid.contains_key(p),
                    forall|p: u64| #![trigger bss_touched(ph, voff, p)]
                        #![trigger pt@.contains_key(p)]
                        !bss_touched(ph, voff, p) ==> (pt@.contains_key(p)
                        == old(pt)@.contains_key(p)) && (old(pt)@.contains_key(p)
                        ==> pt@[p] == old(pt)@[p]),
                    forall|p: u64| old(pt)@.contains_key(p) ==> pt@.contains_key(p),
                    dbz != 0 ==> pt_mid.contains_key(tailpage(ph, voff))
                        && pt_mid[tailpage(ph, voff)] == (MapTarget { frame: tf, flags }),
                decreases npages - i,
            {
                proof {
                    assert(i * 4096 <= (npages - 1) * 4096) by (nonlinear_arith)
                        requires i <= npages - 1;
                    assert((i + 1) * 4096 == i * 4096 + 4096) by (nonlinear_arith);
                }
                let page: u64 = start0 + i * 4096;
                proof {
                    assert(page % 4096 == 0) by {
                        vstd::arithmetic::div_mod::lemma_mod_multiples_basic(
                            i as int, 4096);
                        assert(i * 4096 == 4096 * i) by (nonlinear_arith);
                        vstd::arithmetic::div_mod::lemma_add_mod_noop(
                            start0 as int, (i * 4096) as int, 4096);
                    }
                }
                let ghost pool_before = fa@;
                let f: u64 = match fa.allocate() {
                    Some(f) => f,
                    None => {
                        proof {
                            assert(old(fa)@.len() as int == i + tail_used);
                            assert(bss_frames_needed(ph, voff)
                                == tail_used + npages);
                        }
                        return Err(LoadError::FrameAllocationFailed);
                    },
                };
                proof {
                    lemma_alloc_only(pool_before, fresh@, ko, len);
                }
                let mut zb: Vec<u8> = Vec::new();
                let mut zj: usize = 0;
                while zj < 4096
                    invariant
                        zj <= 4096,
                        zb@.len() == zj,
                        forall|t: int| 0 <= t < zj ==> zb@[t] == 0u8,
                    decreases 4096 - zj,
                {
                    zb.push(0u8);
                    zj += 1;
                }
                match pt.map_to(page, f, flags) {
                    Ok(_) => {},
                    Err(_) => {
                        proof {
                            assert(pt@.contains_key(page));
                            assert(!(page_off(page) == 0 && start0 <= page
                                && page < start0 + i * 4096));
                            assert(pt_mid.contains_key(page));
                            assert(old(pt)@.contains_key(page));
                            assert(page <= page_of((zend(ph, voff) - 1) as u64));
                        }
                        return Err(LoadError::BssMapFailed);
                    },
                }
                proof {
                    lemma_alloc_push(pool_before, fresh@, ko, len,
                        FrameContents { frame: f, bytes: zb });
                }
                let zfc = FrameContents { frame: f, bytes: zb };
                fresh.push(zfc);
                i += 1;
                proof {
                    assert(fresh@.drop_last().is_prefix_of(fresh@));
                    assert forall|p: u64| page_off(p) == 0 && start0 <= p
                        && p < start0 + i * 4096 implies zero_mapped(pt@, fresh@,
                        ko, len, p, flags) by {
                        if p < start0 + (i - 1) * 4096 {
                            assert(p != page);
                        } else {
                            lemma_aligned_unique(page, p);
                            assert(p == page);
                        }
                    }
                }
            }
            proof {
                assert(start0 + npages * 4096 == end_page + 4096) by (nonlinear_arith)
                    requires (npages - 1) * 4096 == end_page - start0;
                assert forall|p: u64| page_off(p) == 0 && zfirst(ph, voff) <= p
                    && p <= page_of((zend(ph, voff) - 1) as u64) implies
                    zero_mapped(pt@, fresh@, ko, len, p, flags) by {
                    assert(start0 <= p && p < start0 + npages * 4096);
                }
            }
        }
    }
    proof {
        // Assemble the zero-tail postcondition.
        assert forall|va: u64| zstart(ph, voff) <= va && va < zend(ph, voff)
            implies pt@.contains_key(#[trigger] page_of(va))
                && pt@[page_of(va)].flags == flags
                && mapped_byte(pt@, fresh@, img@, ko, va) == Some(0u8) by {
            lemma_page(va);
            lemma_page_monotone(va, (ze - 1) as u64);
            assert(page_of(va) <= page_of((zend(ph, voff) - 1) as u64));
            if (va as int) < zfirst(ph, voff) {
                // In the split tail page: served by the fresh copy frame.
                assert(dbz != 0) by {
                    if dbz == 0 {
                        assert(zfirst(ph, voff) == zs as int);
                    }
                }
                lemma_page_of_interior(zs, va);
                assert(page_of(va) == page_of(zs));
                assert(page_of(zs) == tailpage(ph, voff));
                assert(pt@.contains_key(page_of(va)));
                assert(pt@[page_of(va)] == (MapTarget { frame: tf, flags }));
                assert(page_off(va) >= dbz);
                assert(fresh_keyed(fresh@, tf));
                assert(fresh_bytes(fresh@, tf) == bufg);
                assert(bufg[page_off(va) as int] == 0u8);
            } else {
                // In a wholly zero page.
                let zf = zfirst(ph, voff);
                assert(zf <= u64::MAX);
                assert((zf as u64) % 4096 == 0) by {
                    if dbz != 0 {
                        vstd::arithmetic::div_mod::lemma_mod_add_multiples_vanish(
                            page_of(zs) as int, 4096);
                    }
                }
                lemma_page_of_aligned((zf) as u64);
                lemma_page_monotone(zf as u64, va);
                assert(page_of(va) >= zf);
                assert(page_off(page_of(va)) == 0) by {
                    lemma_page_of_aligned(page_of(va));
                }
                assert(zero_mapped(pt@, fresh@, ko, len, page_of(va), flags));
                assert(page_off(va) < 4096);
            }
        }
        // Assemble the preserved tail-data postcondition.
        if dbz != 0 {
            assert forall|va: u64| page_of(va) == tailpage(ph, voff)
                && ph.vaddr + voff <= va && va < zstart(ph, voff)
                implies pt@.contains_key(#[trigger] page_of(va))
                    && pt@[page_of(va)].flags == flags
                    && mapped_byte(pt@, fresh@, img@, ko, va)
                        == Some(img@[ph.offset + (va - (ph.vaddr + voff))]) by {
                lemma_page(va);
                assert(page_of(zs) == tailpage(ph, voff));
                assert(pt@[page_of(va)] == (MapTarget { frame: tf, flags }));
                assert(page_off(va) < dbz) by {
                    lemma_page(va);
                    assert(va < zs);
                    assert(va >= page_of(zs));
                }
                assert(fresh_keyed(fresh@, tf));
                assert(fresh_bytes(fresh@, tf) == bufg);
                assert(bufg[page_off(va) as int]
                    == img@[ph.offset + ph.filesz - dbz + page_off(va)]);
                assert(ph.offset + ph.filesz - dbz + page_off(va)
                    == ph.offset + (va - (ph.vaddr + voff)));
            }
        }
    }
    Ok(())
}

/// Fresh frames loading one segment consumes.
pub open spec fn seg_frames_needed(ph: Phdr, voff: u64) -> int {
    if ph.memsz > ph.filesz {
        bss_frames_needed(ph, voff)
    } else {
        0
    }
}

/// Map a `PT_LOAD` segment: install a mapping for every frame holding part
/// of its file image at the corresponding virtual page, with flags derived
/// from the segment, then extend with zeroed memory when `mem_size`
/// exceeds `file_size`.
#[verifier::rlimit(100)]
pub fn handle_load_segment(
    ph: Phdr,
    ko: u64,
    voff: u64,
    img: &Vec<u8>,
    pt: &mut KernelPageTable,
    fa: &mut BootFrames,
    fresh: &mut Vec<FrameContents>,
) -> (r: Result<(), LoadError>)
    requires
        ph.ptype == PT_LOAD,
        phdr_ok(ph, voff, img@.len() as int),
        ko % 4096 == 0,
        voff % 4096 == 0,
        ko + img@.len() <= u64::MAX,
        old(pt).wf(),
        mem_wf(old(fa)@, old(fresh)@, ko, img@.len() as int),
    ensures
        final(pt).wf(),
        mem_wf(final(fa)@, final(fresh)@, ko, img@.len() as int),
        old(fresh)@.is_prefix_of(final(fresh)@),
        forall|p: u64| #![trigger final(pt)@.contains_key(p)]
            #![trigger in_seg_pages(ph, voff, p)]
            !in_seg_pages(ph, voff, p) ==> (final(pt)@.contains_key(p)
            == old(pt)@.contains_key(p)) && (old(pt)@.contains_key(p)
            ==> final(pt)@[p] == old(pt)@[p]),
        forall|p: u64| #![trigger old(pt)@.contains_key(p)]
            old(pt)@.contains_key(p) ==> final(pt)@.contains_key(p),
        r is Ok ==> segment_loaded(ph, voff, ko, img@, final(pt)@, final(fresh)@),
        r is Ok ==> old(fa)@.len() + old(fresh)@.len()
            == final(fa)@.len() + final(fresh)@.len(),
        ph.memsz <= ph.filesz ==> final(fa)@ == old(fa)@
            && final(fresh)@ == old(fresh)@,
        r == Err::<(), LoadError>(LoadError::MapToFailed) ==> exists|p: u64|
            #[trigger] in_seg_pages(ph, voff, p) && old(pt)@.contains_key(p),
        ((forall|p: u64| #[trigger] in_seg_pages(ph, voff, p)
            ==> !old(pt)@.contains_key(p))
            && old(fa)@.len() >= seg_frames_needed(ph, voff)
            && !(ph.memsz > ph.filesz && ph.filesz == 0
                && page_off(vstart(ph, voff)) != 0)) ==> r is Ok,
        r matches Err(e2) ==> (e2 == LoadError::MapToFailed
            || e2 == LoadError::FrameAllocationFailed
            || e2 == LoadError::BssUnmapFailed || e2 == LoadError::BssRemapFailed
            || e2 == LoadError::BssMapFailed),
        r is Ok && ph.memsz > ph.filesz ==> seg_bss_fresh(ph, voff, ko,
            img@.len() as int, final(pt)@, final(fresh)@),
{
    let ghost len = img@.len() as int;
    let flags = flags_for(ph.flags);
    let vs: u64 = ph.vaddr + voff;
    let ps: u64 = ko + ph.offset;
    let ghost r0: u64 = page_off(vs);
    proof {
        lemma_page(vs);
        lemma_page(ps);
        lemma_page_aligned_add(ko, ph.offset);
        lemma_page_aligned_add(voff, ph.vaddr);
        assert(page_off(ps) == page_off(vs));
        lemma_page_of_aligned(ko);
        lemma_page_monotone(ko, ps);
    }
    if ph.filesz > 0 {
        let start_frame: u64 = align_down(ps);
        let end_frame: u64 = align_down(ps + (ph.filesz - 1));
        let start_page: u64 = align_down(vs);
        proof {
            // Both ends decompose over the shared page offset r0.
            lemma_page(ph.filesz);
            lemma_page_aligned_add(start_page, (r0 + (ph.filesz - 1)) as u64);
            lemma_page_aligned_add(start_frame, (r0 + (ph.filesz - 1)) as u64);
            assert(end_frame - start_frame
                == page_of((r0 + (ph.filesz - 1)) as u64));
            assert(page_of((vs + ph.filesz - 1) as u64)
                == start_page + (end_frame - start_frame));
            vstd::arithmetic::div_mod::lemma_sub_mod_noop(
                end_frame as int, start_frame as int, 4096);
            vstd::arithmetic::div_mod::lemma_small_mod(0nat, 4096nat);
            lemma_div_mod_split((end_frame - start_frame) as int, 4096);
        }
        let count: u64 = (end_frame - start_frame) / 4096 + 1;
        proof {
            assert((count - 1) * 4096 == end_frame - start_frame) by (nonlinear_arith)
                requires
                    count == (end_frame - start_frame) as int / 4096 + 1,
                    (end_frame - start_frame) % 4096 == 0,
                    end_frame >= start_frame,
                ;
        }
        let mut k: u64 = 0;
        while k < count
            invariant
                ph.ptype == PT_LOAD,
                phdr_ok(ph, voff, len),
                len == img@.len(),
                ko % 4096 == 0,
                voff % 4096 == 0,
                ko + len <= u64::MAX,
                flags == flags_of(ph.flags),
                ph.filesz > 0,
                vs == ph.vaddr + voff,
                ps == ko + ph.offset,
                start_frame == page_of(ps),
                start_page == page_of(vs),
                ko <= start_frame,
                end_frame == page_of((ps + ph.filesz - 1) as u64),
                page_of((vs + ph.filesz - 1) as u64)
                    == start_page + (end_frame - start_frame),
                (count - 1) * 4096 == end_frame - start_frame,
                k <= count,
                pt.wf(),
                fa@ == old(fa)@,
                fresh@ == old(fresh)@,
                mem_wf(old(fa)@, old(fresh)@, ko, len),
                forall|q: u64| #![trigger pt@.contains_key(q)] #![trigger page_off(q)]
                    page_off(q) == 0 && start_page <= q
                    && q < start_page + k * 4096 ==> pt@.contains_key(q)
                    && pt@[q] == (MapTarget { frame: (start_frame
                        + (q - start_page)) as u64, flags }),
                forall|p: u64| #![trigger pt@.contains_key(p)] #![trigger page_off(p)]
                    !(page_off(p) == 0 && start_page <= p
                    && p < start_page + k * 4096) ==> (pt@.contains_key(p)
                    == old(pt)@.contains_key(p)) && (old(pt)@.contains_key(p)
                    ==> pt@[p] == old(pt)@[p]),
                forall|p: u64| #![trigger old(pt)@.contains_key(p)]
                    old(pt)@.contains_key(p) ==> pt@.contains_key(p),
            decreases count - k,
        {
            proof {
                assert(k * 4096 <= (count - 1) * 4096) by (nonlinear_arith)
                    requires k <= count - 1;
                assert((k + 1) * 4096 == k * 4096 + 4096) by (nonlinear_arith);
            }
            let page: u64 = start_page + k * 4096;
            let frame: u64 = start_frame + k * 4096;
            proof {
                assert(page % 4096 == 0 && frame % 4096 == 0) by {
                    vstd::arithmetic::div_mod::lemma_mod_multiples_basic(
                        k as int, 4096);
                    assert(k * 4096 == 4096 * k) by (nonlinear_arith);
                    vstd::arithmetic::div_mod::lemma_add_mod_noop(
                        start_page as int, (k * 4096) as int, 4096);
                    vstd::arithmetic::div_mod::lemma_add_mod_noop(
                        start_frame as int, (k * 4096) as int, 4096);
                }
            }
            match pt.map_to(page, frame, flags) {
                Ok(_) => {},
                Err(_) => {
                    proof {
                        assert(old(fresh)@.is_prefix_of(fresh@));
                        assert forall|p: u64| !in_seg_pages(ph, voff, p) implies
                            (pt@.contains_key(p) == old(pt)@.contains_key(p))
                            && (old(pt)@.contains_key(p)
                                ==> pt@[p] == old(pt)@[p]) by {
                            if page_off(p) == 0 && start_page <= p
                                && p < start_page + k * 4096 {
                                lemma_off0(p);
                                lemma_seg_file_page(ph, voff, p);
                                assert(p > page_of((vs + ph.filesz - 1) as u64));
                                lemma_page((vs + ph.filesz - 1) as u64);
                                lemma_aligned_gap(
                                    page_of((vs + ph.filesz - 1) as u64), p);
                                assert(k * 4096 <= (count - 1) * 4096 + 4096)
                                    by (nonlinear_arith)
                                    requires k <= count;
                                assert(false);
                            }
                            assert(!(page_off(p) == 0 && start_page <= p
                                && p < start_page + k * 4096));
                            assert(pt@.contains_key(p)
                                == old(pt)@.contains_key(p));
                            if old(pt)@.contains_key(p) {
                                assert(pt@[p] == old(pt)@[p]);
                            }
                        }
                    }
                    proof {
                        // The conflicting page is one of this segment's own
                        // pages and was mapped before the call, so success
                        // was not owed.
                        assert(pt@.contains_key(page));
                        assert(!(page < start_page + k * 4096));
                        assert(old(pt)@.contains_key(page));
                        lemma_page_monotone((vs + ph.filesz - 1) as u64,
                            (ph.vaddr + voff + seg_span(ph) - 1) as u64);
                        assert(in_seg_pages(ph, voff, page));
                    }
                    return Err(LoadError::MapToFailed);
                },
            }
            k += 1;
            proof {
                assert forall|q: u64| page_off(q) == 0 && start_page <= q
                    && q < start_page + k * 4096 implies pt@.contains_key(q)
                    && pt@[q] == (MapTarget { frame: (start_frame
                        + (q - start_page)) as u64, flags }) by {
                    if q < start_page + (k - 1) * 4096 {
                        assert(q != page);
                    } else {
                        lemma_aligned_unique(page, q);
                        assert(q == page);
                    }
                }
            }
        }
        proof {
            // Every file-backed address is mapped onto its own file byte.
            assert forall|va: u64| vs <= va && va < vs + ph.filesz implies
                pt@.contains_key(#[trigger] page_of(va))
                && pt@[page_of(va)].flags == flags
                && ko <= pt@[page_of(va)].frame
                && pt@[page_of(va)].frame < ko + len
                && pt@[page_of(va)].frame - ko + page_off(va)
                    == ph.offset + (va - vs)
                && pt@[page_of(va)].frame - ko + page_off(va) < len by {
                lemma_page(va);
                let x: u64 = (r0 + (va - vs)) as u64;
                lemma_page(x);
                lemma_page_aligned_add(start_page, x);
                lemma_page_aligned_add(start_frame, x);
                assert(start_page + x == va);
                assert(page_of(va) == start_page + page_of(x));
                assert(page_off(va) == page_off(x));
                lemma_page_monotone(x, (r0 + (ph.filesz - 1)) as u64);
                assert(page_of(x) <= end_frame - start_frame);
                assert(page_off(page_of(va)) == 0) by {
                    lemma_page_of_aligned(page_of(va));
                }
                assert(page_of(va) < start_page + count * 4096) by (nonlinear_arith)
                    requires
                        page_of(va) <= start_page + (count - 1) * 4096,
                    ;
                assert(pt@[page_of(va)] == (MapTarget { frame: (start_frame
                    + page_of(x)) as u64, flags }));
                assert(start_frame + page_of(x) + page_off(x) == ps + (va - vs));
            }
            // Everything outside the file-backed pages is untouched.
            assert forall|p: u64| !(page_off(p) == 0
                && page_of(vstart(ph, voff)) <= p
                && p <= page_of((vstart(ph, voff) + ph.filesz - 1) as u64))
                implies (pt@.contains_key(p) == old(pt)@.contains_key(p))
                    && (old(pt)@.contains_key(p) ==> pt@[p] == old(pt)@[p]) by {
                if page_off(p) == 0 && start_page <= p
                    && p < start_page + count * 4096 {
                    lemma_off0(p);
                    lemma_page((vs + ph.filesz - 1) as u64);
                    if p > page_of((vs + ph.filesz - 1) as u64) {
                        lemma_aligned_gap(
                            page_of((vs + ph.filesz - 1) as u64), p);
                        assert(count * 4096 == (count - 1) * 4096 + 4096)
                            by (nonlinear_arith);
                        assert(false);
                    }
                    assert(page_of(vstart(ph, voff)) <= p
                        && p <= page_of((vstart(ph, voff) + ph.filesz - 1) as u64));
                    assert(false);
                }
                assert(!(page_off(p) == 0 && start_page <= p
                    && p < start_page + count * 4096));
                assert(pt@.contains_key(p) == old(pt)@.contains_key(p));
                if old(pt)@.contains_key(p) {
                    assert(pt@[p] == old(pt)@[p]);
                }
            }
        }
    }
    let ghost pt_f = pt@;
    let ghost fresh_f = fresh@;
    if ph.memsz > ph.filesz {
        proof {
            // When success is owed, the zero-tail pass finds what it needs:
            // the split tail page was mapped by the file pass, and the
            // wholly zero pages are free.
            if (forall|p: u64| #[trigger] in_seg_pages(ph, voff, p)
                ==> !old(pt)@.contains_key(p))
                && old(fa)@.len() >= seg_frames_needed(ph, voff)
                && !(ph.filesz == 0 && page_off(vstart(ph, voff)) != 0) {
                let zs: u64 = (vs + ph.filesz) as u64;
                lemma_page(zs);
                if dbz_of(ph, voff) != 0 {
                    assert(ph.filesz > 0) by {
                        if ph.filesz == 0 {
                            lemma_page_aligned_add(voff, ph.vaddr);
                        }
                    }
                    lemma_page_of_interior(zs, (zs - 1) as u64);
                    assert(tailpage(ph, voff)
                        == page_of((vs + ph.filesz - 1) as u64));
                    assert(vs <= (vs + ph.filesz - 1) as u64);
                    assert(((vs + ph.filesz - 1) as u64) < vs + ph.filesz);
                    assert(pt@.contains_key(page_of((vs + ph.filesz - 1) as u64)));
                }
                assert forall|p: u64| page_off(p) == 0 && zfirst(ph, voff) <= p
                    && p <= page_of((zend(ph, voff) - 1) as u64) implies
                    !pt@.contains_key(p) by {
                    lemma_off0(p);
                    assert(in_seg_pages(ph, voff, p)) by {
                        if !in_seg_pages(ph, voff, p) {
                            lemma_seg_bss_page(ph, voff, p);
                            assert(!bss_touched(ph, voff, p));
                        }
                    }
                    assert(!old(pt)@.contains_key(p));
                    if ph.filesz > 0 {
                        // the page lies past every file-backed page
                        assert(p as int >= zfirst(ph, voff));
                        lemma_page((vs + ph.filesz - 1) as u64);
                        if dbz_of(ph, voff) != 0 {
                            lemma_page_of_interior(zs, (zs - 1) as u64);
                            assert(zfirst(ph, voff)
                                == page_of((vs + ph.filesz - 1) as u64) + 4096);
                        } else {
                            assert(page_off(zs) == 0);
                            assert(zs >= 4096);
                            vstd::arithmetic::div_mod::lemma_mod_sub_multiples_vanish(
                                zs as int, 4096);
                            lemma_page_of_interior((zs - 4096) as u64,
                                (zs - 1) as u64);
                            assert(page_of((vs + ph.filesz - 1) as u64)
                                == zs - 4096);
                        }
                        assert(p as int >= page_of((vs + ph.filesz - 1) as u64)
                            + 4096);
                        assert(!(page_off(p) == 0 && page_of(vstart(ph, voff)) <= p
                            && p <= page_of((vstart(ph, voff) + ph.filesz - 1)
                                as u64)));
                        assert(pt@.contains_key(p) == old(pt)@.contains_key(p));
                    }
                    assert(!pt@.contains_key(p));
                }
            }
        }
        match handle_bss_section(ph, ko, voff, flags, img, pt, fa, fresh) {
            Ok(_) => {},
            Err(e) => {
                proof {
                    lemma_untouched_outside(ph, voff, ko, len, old(pt)@, pt_f, pt@);
                }
                return Err(e);
            },
        }
        proof {
            lemma_untouched_outside(ph, voff, ko, len, old(pt)@, pt_f, pt@);
            assert forall|va: u64| ph.vaddr + voff <= va
                && va < ph.vaddr + voff + seg_span(ph) implies {
                &&& pt@.contains_key(#[trigger] page_of(va))
                &&& pt@[page_of(va)].flags == flags_of(ph.flags)
                &&& (va - (ph.vaddr + voff) < ph.filesz ==> mapped_byte(pt@,
                    fresh@, img@, ko, va) == Some(img@[ph.offset + (va
                    - (ph.vaddr + voff))]))
                &&& (ph.filesz <= va - (ph.vaddr + voff) && va - (ph.vaddr + voff)
                    < ph.memsz ==> mapped_byte(pt@, fresh@, img@, ko, va)
                    == Some(0u8))
                &&& (va - (ph.vaddr + voff) < ph.filesz && (ph.memsz <= ph.filesz
                    || dbz_of(ph, voff) == 0 || page_of(va) != tailpage(ph, voff))
                    ==> pt@[page_of(va)].frame == pstart(ph, ko)
                        - page_off(pstart(ph, ko))
                        + (page_of(va) - page_of(vstart(ph, voff))))
            } by {
                lemma_page(va);
                let j = va - vs;
                if j < ph.filesz {
                    // File-backed: either the split tail page, or untouched
                    // by the zero-tail pass.
                    let zs: u64 = (vs + ph.filesz) as u64;
                    lemma_page((zs - 1) as u64);
                    lemma_page(zs);
                    if dbz_of(ph, voff) != 0 && page_of(va) == tailpage(ph, voff) {
                        assert(va < zs);
                    } else {
                        assert(!bss_touched(ph, voff, page_of(va))) by {
                            lemma_page_of_aligned(page_of(va));
                            lemma_page_monotone(va, (zs - 1) as u64);
                            if dbz_of(ph, voff) != 0 {
                                lemma_page_of_interior(zs, (zs - 1) as u64);
                                assert(page_of(va) <= tailpage(ph, voff));
                                assert(page_of(va) != tailpage(ph, voff));
                                assert(zfirst(ph, voff) == page_of(zs) + 4096);
                                assert(tailpage(ph, voff) == page_of(zs));
                            } else {
                                assert(page_off(zs) == 0);
                                assert(zs >= 4096) by {
                                    lemma_page(zs);
                                }
                                vstd::arithmetic::div_mod::lemma_mod_sub_multiples_vanish(
                                    zs as int, 4096);
                                lemma_page_of_interior((zs - 4096) as u64,
                                    (zs - 1) as u64);
                                assert(page_of((zs - 1) as u64) == zs - 4096);
                                assert(page_of(va) <= zs - 4096);
                                assert(zfirst(ph, voff) == zs as int);
                            }
                        }
                        assert(pt@.contains_key(page_of(va))
                            && pt@[page_of(va)] == pt_f[page_of(va)]);
                    }
                } else {
                    assert(zstart(ph, voff) <= va && va < zend(ph, voff));
                }
            }
        }
    } else {
        proof {
            assert forall|p: u64| !in_seg_pages(ph, voff, p) implies
                (pt@.contains_key(p) == old(pt)@.contains_key(p))
                && (old(pt)@.contains_key(p) ==> pt@[p] == old(pt)@[p]) by {
                if ph.filesz > 0 {
                    if page_off(p) == 0 {
                        lemma_off0(p);
                        lemma_seg_file_page(ph, voff, p);
                    }
                    assert(!(page_off(p) == 0
                        && page_of(vstart(ph, voff)) <= p
                        && p <= page_of((vstart(ph, voff) + ph.filesz - 1) as u64)));
                    assert(pt@.contains_key(p) == old(pt)@.contains_key(p));
                    if old(pt)@.contains_key(p) {
                        assert(pt@[p] == old(pt)@[p]);
                    }
                }
            }
            assert forall|va: u64| ph.vaddr + voff <= va
                && va < ph.vaddr + voff + seg_span(ph) implies {
                &&& pt@.contains_key(#[trigger] page_of(va))
                &&& pt@[page_of(va)].flags == flags_of(ph.flags)
                &&& (va - (ph.vaddr + voff) < ph.filesz ==> mapped_byte(pt@,
                    fresh@, img@, ko, va) == Some(img@[ph.offset + (va
                    - (ph.vaddr + voff))]))
                &&& (ph.filesz <= va - (ph.vaddr + voff) && va - (ph.vaddr + voff)
                    < ph.memsz ==> mapped_byte(pt@, fresh@, img@, ko, va)
                    == Some(0u8))
                &&& (va - (ph.vaddr + voff) < ph.filesz && (ph.memsz <= ph.filesz
                    || dbz_of(ph, voff) == 0 || page_of(va) != tailpage(ph, voff))
                    ==> pt@[page_of(va)].frame == pstart(ph, ko)
                        - page_off(pstart(ph, ko))
                        + (page_of(va) - page_of(vstart(ph, voff))))
            } by {
                assert(seg_span(ph) == ph.filesz);
                assert(va - (ph.vaddr + voff) < ph.filesz);
            }
        }
    }
    Ok(())
}

/// A zero page offset is page alignment.
proof fn lemma_off0(p: u64)
    requires
        page_off(p) == 0,
    ensures
        p % 4096 == 0,
        page_of(p) == p,
{
    lemma_div_mod_split(p as int, 4096);
    lemma_page(p);
}

/// Distinct page-aligned addresses are at least one page apart.
proof fn lemma_aligned_gap(a: u64, b: u64)
    requires
        a % 4096 == 0,
        b % 4096 == 0,
        a < b,
    ensures
        a + 4096 <= b,
{
    if b < a + 4096 {
        lemma_aligned_unique(a, b);
    }
}

/// In-segment pages contain the file-backed pages and the zero-tail pages;
/// everything outside is untouched by either pass.
#[verifier::rlimit(100)]
proof fn lemma_untouched_outside(
    ph: Phdr,
    voff: u64,
    ko: u64,
    len: int,
    pt0: Map<u64, MapTarget>,
    pt1: Map<u64, MapTarget>,
    pt2: Map<u64, MapTarget>,
)
    requires
        ph.ptype == PT_LOAD,
        ph.memsz > ph.filesz,
        ph.vaddr + voff + ph.filesz <= u64::MAX,
        ph.vaddr + voff + ph.memsz <= u64::MAX,
        voff % 4096 == 0,
        forall|p: u64| #![trigger pt1.contains_key(p)] #![trigger pt0.contains_key(p)]
            !(ph.filesz > 0 && page_off(p) == 0
            && page_of(vstart(ph, voff)) <= p
            && p <= page_of((vstart(ph, voff) + ph.filesz - 1) as u64))
            ==> (pt1.contains_key(p) == pt0.contains_key(p))
                && (pt0.contains_key(p) ==> pt1[p] == pt0[p]),
        forall|p: u64| #![trigger pt0.contains_key(p)] pt0.contains_key(p)
            ==> pt1.contains_key(p),
        forall|p: u64| #![trigger pt2.contains_key(p)] #![trigger pt1.contains_key(p)]
            !bss_touched(ph, voff, p) ==> (pt2.contains_key(p)
            == pt1.contains_key(p)) && (pt1.contains_key(p) ==> pt2[p] == pt1[p]),
        forall|p: u64| #![trigger pt1.contains_key(p)] pt1.contains_key(p)
            ==> pt2.contains_key(p),
    ensures
        forall|p: u64| #![trigger pt2.contains_key(p)] #![trigger pt0.contains_key(p)]
            !in_seg_pages(ph, voff, p) ==> (pt2.contains_key(p)
            == pt0.contains_key(p)) && (pt0.contains_key(p) ==> pt2[p] == pt0[p]),
        forall|p: u64| #![trigger pt0.contains_key(p)] pt0.contains_key(p)
            ==> pt2.contains_key(p),
{
    let vs = vstart(ph, voff);
    assert forall|p: u64| !in_seg_pages(ph, voff, p) implies (pt2.contains_key(p)
        == pt0.contains_key(p)) && (pt0.contains_key(p) ==> pt2[p] == pt0[p]) by {
        if page_off(p) == 0 {
            lemma_off0(p);
            if ph.filesz > 0 {
                lemma_seg_file_page(ph, voff, p);
            }
            lemma_seg_bss_page(ph, voff, p);
        }
        assert(!(ph.filesz > 0 && page_off(p) == 0
            && page_of(vstart(ph, voff)) <= p
            && p <= page_of((vstart(ph, voff) + ph.filesz - 1) as u64)));
        assert(!bss_touched(ph, voff, p));
        assert(pt1.contains_key(p) == pt0.contains_key(p));
        assert(pt2.contains_key(p) == pt1.contains_key(p));
        if pt0.contains_key(p) {
            assert(pt1[p] == pt0[p]);
            assert(pt2[p] == pt1[p]);
        }
    }
}

/// A page holding part of a segment's file image is one of its pages.
proof fn lemma_seg_file_page(ph: Phdr, voff: u64, p: u64)
    requires
        ph.ptype == PT_LOAD,
        ph.vaddr + voff + ph.filesz <= u64::MAX,
        ph.vaddr + voff + ph.memsz <= u64::MAX,
        !in_seg_pages(ph, voff, p),
        page_off(p) == 0,
        ph.filesz > 0,
    ensures
        !(page_of(vstart(ph, voff)) <= p
            && p <= page_of((vstart(ph, voff) + ph.filesz - 1) as u64)),
{
    let vs = vstart(ph, voff);
    if page_of(vs) <= p && p <= page_of((vs + ph.filesz - 1) as u64) {
        assert(seg_span(ph) >= ph.filesz);
        lemma_page_monotone((vs + ph.filesz - 1) as u64,
            (ph.vaddr + voff + seg_span(ph) - 1) as u64);
        assert(in_seg_pages(ph, voff, p));
    }
}

/// A page the zero-tail pass may touch is one of the segment's pages.
proof fn lemma_seg_bss_page(ph: Phdr, voff: u64, p: u64)
    requires
        ph.ptype == PT_LOAD,
        ph.memsz > ph.filesz,
        ph.vaddr + voff + ph.filesz <= u64::MAX,
        ph.vaddr + voff + ph.memsz <= u64::MAX,
        voff % 4096 == 0,
        !in_seg_pages(ph, voff, p),
        page_off(p) == 0,
    ensures
        !bss_touched(ph, voff, p),
{
    let vs = vstart(ph, voff);
    let zs = zstart(ph, voff);
    let ze = zend(ph, voff);
    assert(seg_span(ph) == ph.memsz);
    if bss_touched(ph, voff, p) {
        lemma_page(vs);
        lemma_page(zs);
        lemma_page(ze);
        if dbz_of(ph, voff) != 0 && p == tailpage(ph, voff) {
            lemma_page_of_interior(zs, (zs - 1) as u64);
            assert(p == page_of(zs));
            if ph.filesz == 0 {
                assert(zs == vs);
                assert(p == page_of(vs));
            } else {
                lemma_page_monotone(vs, (zs - 1) as u64);
                lemma_page_monotone((zs - 1) as u64,
                    (ph.vaddr + voff + seg_span(ph) - 1) as u64);
            }
            lemma_page_monotone(vs, (ph.vaddr + voff + seg_span(ph) - 1) as u64);
            assert(in_seg_pages(ph, voff, p));
        } else {
            assert(zfirst(ph, voff) <= p && p <= page_of((ze - 1) as u64));
            lemma_page_monotone((ze - 1) as u64,
                (ph.vaddr + voff + seg_span(ph) - 1) as u64);
            assert(p >= page_of(vs)) by {
                if dbz_of(ph, voff) == 0 {
                    lemma_page_monotone(vs, zs);
                    lemma_page_of_aligned(zs);
                } else {
                    lemma_page_monotone(vs, zs);
                    assert(zfirst(ph, voff) == page_of(zs) + 4096);
                }
            }
            assert(in_seg_pages(ph, voff, p));
        }
    }
}

/// The recorded template of a `PT_TLS` segment, with its start address
/// already displaced.
#[derive(Clone, Copy, Debug, PartialEq, Eq, Structural)]
pub struct TlsTemplate {
    pub start_addr: u64,
    pub file_size: u64,
    pub mem_size: u64,
}

/// The template a `PT_TLS` header describes.
pub open spec fn spec_tls(ph: Phdr, voff: u64) -> TlsTemplate {
    TlsTemplate {
        start_addr: (ph.vaddr + voff) as u64,
        file_size: ph.filesz,
        mem_size: ph.memsz,
    }
}

/// Record the thread-local-storage template of a `PT_TLS` segment.
pub fn handle_tls_segment(ph: Phdr, voff: u64) -> (r: TlsTemplate)
    requires
        ph.ptype == PT_TLS,
        ph.vaddr + voff <= u64::MAX,
    ensures
        r == spec_tls(ph, voff),
{
    TlsTemplate {
        start_addr: ph.vaddr + voff,
        file_size: ph.filesz,
        mem_size: ph.memsz,
    }
}

/// How many `PT_TLS` segments a table holds.
pub open spec fn count_tls(phs: Seq<Phdr>) -> int
    decreases phs.len(),
{
    if phs.len() == 0 {
        0
    } else {
        count_tls(phs.drop_last()) + (if phs.last().ptype == PT_TLS {
            1int
        } else {
            0int
        })
    }
}

proof fn lemma_count_tls_take(phs: Seq<Phdr>, t: int)
    requires
        0 <= t < phs.len(),
    ensures
        count_tls(phs.take(t + 1)) == count_tls(phs.take(t))
            + (if phs[t].ptype == PT_TLS { 1int } else { 0int }),
{
    assert(phs.take(t + 1).drop_last() =~= phs.take(t));
    assert(phs.take(t + 1).last() == phs[t]);
}

proof fn lemma_count_tls_prefix(phs: Seq<Phdr>, t: int)
    requires
        0 <= t <= phs.len(),
    ensures
        count_tls(phs.take(t)) <= count_tls(phs),
    decreases phs.len() - t,
{
    if t == phs.len() {
        assert(phs.take(t) =~= phs);
    } else {
        lemma_count_tls_take(phs, t);
        lemma_count_tls_prefix(phs, t + 1);
    }
}

/// The zero-initialised pages of a segment map pairwise-distinct frames
/// that lie outside the ELF image and are recorded as freshly written.
pub open spec fn seg_bss_fresh(
    ph: Phdr,
    voff: u64,
    ko: u64,
    img_len: int,
    pt: Map<u64, MapTarget>,
    fresh: Seq<FrameContents>,
) -> bool {
    &&& (forall|p: u64| #[trigger] bss_touched(ph, voff, p) ==> pt.contains_key(p)
        && !(ko <= pt[p].frame && pt[p].frame < ko + img_len)
        && fresh_keyed(fresh, pt[p].frame))
    &&& (forall|p1: u64, p2: u64| #[trigger] bss_touched(ph, voff, p1)
        && #[trigger] bss_touched(ph, voff, p2) && p1 != p2
        ==> pt[p1].frame != pt[p2].frame)
}

/// Segment tables on which the mapping pass cannot fail: sane headers, no
/// dynamic section, every loadable segment wholly file-backed, page ranges
/// disjoint.
pub open spec fn plain_segments(phs: Seq<Phdr>, voff: u64, img_len: int) -> bool {
    &&& phdrs_ok(phs, voff, img_len)
    &&& (forall|k: int| 0 <= k < phs.len() ==> (#[trigger] phs[k]).ptype != PT_DYNAMIC)
    &&& (forall|k: int| 0 <= k < phs.len() && phs[k].ptype == PT_LOAD
        ==> (#[trigger] phs[k]).memsz <= phs[k].filesz)
    &&& loads_page_disjoint(phs, voff)
}

/// The virtual page ranges of distinct loadable segments do not overlap.
/// Standard linkers arrange this; the byte-level loading laws assume it.
pub open spec fn loads_page_disjoint(phs: Seq<Phdr>, voff: u64) -> bool {
    forall|a: int, b: int| #![trigger phs[a], phs[b]] 0 <= a < phs.len()
        && 0 <= b < phs.len() && a != b && phs[a].ptype == PT_LOAD
        && phs[b].ptype == PT_LOAD && seg_span(phs[a]) > 0 && seg_span(phs[b]) > 0
        ==> page_of((phs[a].vaddr + voff + seg_span(phs[a]) - 1) as u64)
                < page_of(vstart(phs[b], voff))
            || page_of((phs[b].vaddr + voff + seg_span(phs[b]) - 1) as u64)
                < page_of(vstart(phs[a], voff))
}

/// A record with a given frame keeps its bytes when further records are
/// appended.
proof fn lemma_fresh_prefix(s1: Seq<FrameContents>, s2: Seq<FrameContents>, f: u64)
    requires
        s1.is_prefix_of(s2),
        fresh_distinct(s2),
        fresh_keyed(s1, f),
    ensures
        fresh_keyed(s2, f),
        fresh_bytes(s2, f) == fresh_bytes(s1, f),
{
    let i = choose|i: int| 0 <= i < s1.len() && s1[i].frame == f;
    assert(s2[i] == s1[i]);
    assert(fresh_keyed(s2, f));
    let j = choose|j: int| 0 <= j < s2.len() && s2[j].frame == f;
    assert(j == i);
    let j1 = choose|j1: int| 0 <= j1 < s1.len() && s1[j1].frame == f;
    assert(s2[j1] == s1[j1]);
    assert(j1 == i);
}

/// Loading a later segment does not disturb an installed one, as long as it
/// leaves the installed segment's pages alone and only appends fresh frames.
proof fn lemma_segment_loaded_preserved(
    ph: Phdr,
    voff: u64,
    ko: u64,
    img: Seq<u8>,
    pt1: Map<u64, MapTarget>,
    pt2: Map<u64, MapTarget>,
    fresh1: Seq<FrameContents>,
    fresh2: Seq<FrameContents>,
)
    requires
        ph.ptype == PT_LOAD,
        ph.vaddr + voff + seg_span(ph) <= u64::MAX,
        segment_loaded(ph, voff, ko, img, pt1, fresh1),
        forall|p: u64| #![trigger pt2.contains_key(p)] in_seg_pages(ph, voff, p)
            ==> (pt2.contains_key(p) == pt1.contains_key(p))
                && (pt1.contains_key(p) ==> pt2[p] == pt1[p]),
        fresh1.is_prefix_of(fresh2),
        fresh_distinct(fresh2),
    ensures
        segment_loaded(ph, voff, ko, img, pt2, fresh2),
{
    assert forall|va: u64| ph.vaddr + voff <= va
        && va < ph.vaddr + voff + seg_span(ph) implies {
        &&& pt2.contains_key(#[trigger] page_of(va))
        &&& pt2[page_of(va)].flags == flags_of(ph.flags)
        &&& (va - (ph.vaddr + voff) < ph.filesz ==> mapped_byte(pt2, fresh2,
            img, ko, va) == Some(img[ph.offset + (va - (ph.vaddr + voff))]))
        &&& (ph.filesz <= va - (ph.vaddr + voff) && va - (ph.vaddr + voff)
            < ph.memsz ==> mapped_byte(pt2, fresh2, img, ko, va) == Some(0u8))
        &&& (va - (ph.vaddr + voff) < ph.filesz && (ph.memsz <= ph.filesz
            || dbz_of(ph, voff) == 0 || page_of(va) != tailpage(ph, voff))
            ==> pt2[page_of(va)].frame == pstart(ph, ko) - page_off(pstart(ph, ko))
                + (page_of(va) - page_of(vstart(ph, voff))))
    } by {
        lemma_page(va);
        lemma_off0(page_of(va));
        lemma_page_monotone(vstart(ph, voff), va);
        lemma_page_monotone(va, (ph.vaddr + voff + seg_span(ph) - 1) as u64);
        assert(in_seg_pages(ph, voff, page_of(va)));
        assert(pt2.contains_key(page_of(va)));
        assert(pt2[page_of(va)] == pt1[page_of(va)]);
        let t = pt1[page_of(va)];
        if !(ko <= t.frame && t.frame < ko + img.len()) {
            if fresh_keyed(fresh1, t.frame) {
                lemma_fresh_prefix(fresh1, fresh2, t.frame);
            } else if fresh_keyed(fresh2, t.frame) {
                // The byte clauses of `segment_loaded` never rely on a frame
                // that was unreadable before, so only the guarded cases
                // matter; in those the old byte was `Some`, forcing the
                // frame to have been recorded already.
                assert(mapped_byte(pt1, fresh1, img, ko, va) is None);
            }
        }
    }
}

/// Check, relocate, and map every segment of the parsed table, recording
/// the TLS template if one exists.  The ghost log of relocation stores and
/// the fresh-frame records are returned for the caller's contract.
#[verifier::rlimit(100)]
pub fn load_segments(
    img: &mut Vec<u8>,
    phs: &Vec<Phdr>,
    ko: u64,
    voff: u64,
    pt: &mut KernelPageTable,
    fa: &mut BootFrames,
) -> (r: Result<(Option<TlsTemplate>, Vec<FrameContents>, Ghost<Seq<WriteOp>>), LoadError>)
    requires
        ko % 4096 == 0,
        voff % 4096 == 0,
        ko + old(img)@.len() <= u64::MAX,
        old(img)@.len() >= 64,
        old(pt).wf(),
        old(pt)@ == Map::<u64, MapTarget>::empty(),
        pool_wf(old(fa)@, ko, old(img)@.len() as int),
    ensures
        final(pt).wf(),
        final(img)@.len() == old(img)@.len(),
        r matches Ok(out) ==> {
            &&& phdrs_ok(phs@, voff, old(img)@.len() as int)
            &&& final(img)@ == apply_writes(old(img)@, out.2@)
            &&& write_laws(out.2@, phs@, voff, old(img)@.len() as int)
            &&& count_tls(phs@) <= 1
            &&& (out.0 is Some <==> count_tls(phs@) >= 1)
            &&& (match out.0 {
                Some(tm) => exists|k: int| 0 <= k < phs@.len()
                    && (#[trigger] phs@[k]).ptype == PT_TLS
                    && tm == spec_tls(phs@[k], voff),
                None => true,
            })
            &&& fresh_distinct(out.1@)
            &&& (forall|i: int| 0 <= i < out.1@.len()
                ==> (#[trigger] out.1@[i]).bytes@.len() == 4096)
            &&& (loads_page_disjoint(phs@, voff) ==> forall|k: int|
                0 <= k < phs@.len() && (#[trigger] phs@[k]).ptype == PT_LOAD
                ==> segment_loaded(phs@[k], voff, ko, final(img)@, final(pt)@,
                    out.1@))
            &&& (writes_disjoint(out.2@) ==> forall|k: int| 0 <= k < out.2@.len()
                ==> crate::bytes::le64_at(final(img)@, (#[trigger] out.2@[k]).off
                    as int) == out.2@[k].value)
            &&& ((forall|k: int| 0 <= k < phs@.len()
                ==> (#[trigger] phs@[k]).ptype != PT_DYNAMIC)
                ==> out.2@ == Seq::<WriteOp>::empty())
            &&& (forall|d: int| #[trigger] crate::reloc::single_dynamic(phs@, d) ==> {
                let dph = phs@[d];
                &&& (crate::reloc::dyn_tag_count(old(img)@, dph.offset as int,
                    crate::reloc::dyn_count(dph), crate::reloc::DT_RELA) == 0
                    || crate::reloc::rela_tags_unique(old(img)@, dph))
                &&& (crate::reloc::dyn_tag_count(old(img)@, dph.offset as int,
                    crate::reloc::dyn_count(dph), crate::reloc::DT_RELA) == 0
                    ==> out.2@ == Seq::<WriteOp>::empty())
                &&& (crate::reloc::rela_tags_unique(old(img)@, dph)
                    ==> out.2@ == crate::reloc::rela_writes(old(img)@, phs@, voff,
                        dph) && crate::reloc::rela_entries_ok(old(img)@, phs@,
                        voff, dph))
            })
            &&& (forall|p: u64| #[trigger] final(pt)@.contains_key(p)
                ==> exists|k: int| 0 <= k < phs@.len()
                    && phs@[k].ptype == PT_LOAD
                    && #[trigger] in_seg_pages(phs@[k], voff, p))
            &&& old(fa)@.len() == final(fa)@.len() + out.1@.len()
            &&& (loads_page_disjoint(phs@, voff) ==> forall|k: int|
                0 <= k < phs@.len() && (#[trigger] phs@[k]).ptype == PT_LOAD
                && phs@[k].memsz > phs@[k].filesz
                ==> seg_bss_fresh(phs@[k], voff, ko, old(img)@.len() as int,
                    final(pt)@, out.1@))
        },
        (plain_segments(phs@, voff, old(img)@.len() as int) && count_tls(phs@) <= 1)
            ==> r is Ok,
        (plain_segments(phs@, voff, old(img)@.len() as int) && count_tls(phs@) >= 2)
            ==> r == Err::<(Option<TlsTemplate>, Vec<FrameContents>,
                Ghost<Seq<WriteOp>>), LoadError>(LoadError::MultipleTlsSegments),
        r matches Err(e2) ==> (e2 == LoadError::MultipleTlsSegments
            ==> count_tls(phs@) >= 2),
        !phdrs_ok(phs@, voff, old(img)@.len() as int) ==> r is Err
            && final(img)@ == old(img)@ && final(pt)@ == old(pt)@
            && final(fa)@ == old(fa)@,
{
    let ghost len0 = old(img)@.len() as int;
    match check_phdrs(phs, voff, img.len() as u64) {
        Ok(_) => {},
        Err(e) => {
            return Err(e);
        },
    }
    // Apply relocations in physical memory.
    let w: Ghost<Seq<WriteOp>> = match crate::reloc::apply_relocations(img, phs, voff) {
        Ok(w) => w,
        Err(e) => {
            return Err(e);
        },
    };
    let ghost imgr = img@;
    // Load the segments into virtual memory.
    let mut fresh: Vec<FrameContents> = Vec::new();
    let mut tls: Option<TlsTemplate> = None;
    let n = phs.len();
    let mut t: usize = 0;
    proof {
        assert(phs@.take(0) =~= Seq::<Phdr>::empty());
    }
    while t < n
        invariant
            n == phs@.len(),
            t <= n,
            ko % 4096 == 0,
            voff % 4096 == 0,
            img@ == imgr,
            imgr.len() == len0,
            len0 == old(img)@.len(),
            len0 >= 64,
            phdrs_ok(phs@, voff, len0),
            ko + len0 <= u64::MAX,
            pt.wf(),
            mem_wf(fa@, fresh@, ko, len0),
            fa@.len() as int + fresh@.len() == old(fa)@.len(),
            match tls {
                None => count_tls(phs@.take(t as int)) == 0,
                Some(tm) => count_tls(phs@.take(t as int)) == 1
                    && (exists|k: int| 0 <= k < t
                        && (#[trigger] phs@[k]).ptype == PT_TLS
                        && tm == spec_tls(phs@[k], voff)),
            },
            loads_page_disjoint(phs@, voff) ==> forall|k: int| 0 <= k < t
                && (#[trigger] phs@[k]).ptype == PT_LOAD
                ==> segment_loaded(phs@[k], voff, ko, img@, pt@, fresh@),
            loads_page_disjoint(phs@, voff) ==> forall|k: int| 0 <= k < t
                && (#[trigger] phs@[k]).ptype == PT_LOAD
                && phs@[k].memsz > phs@[k].filesz
                ==> seg_bss_fresh(phs@[k], voff, ko, len0, pt@, fresh@),
            forall|p: u64| pt@.contains_key(p) ==> exists|k: int| 0 <= k < t
                && phs@[k].ptype == PT_LOAD
                && #[trigger] in_seg_pages(phs@[k], voff, p),
        decreases n - t,
    {
        let ph = phs[t];
        proof {
            assert(phdr_ok(phs@[t as int], voff, len0));
        }
        if ph.ptype == PT_LOAD {
            let ghost pt_before = pt@;
            let ghost fresh_before = fresh@;
            proof {
                if loads_page_disjoint(phs@, voff) {
                    assert forall|p: u64| #[trigger] in_seg_pages(phs@[t as int],
                        voff, p) implies !pt_before.contains_key(p) by {
                        if pt_before.contains_key(p) {
                            // every mapped page belongs to an earlier load
                            // segment, whose page range is disjoint from
                            // this one's
                            let k = choose|k: int| 0 <= k < t
                                && phs@[k].ptype == PT_LOAD
                                && #[trigger] in_seg_pages(phs@[k], voff, p);
                            let pha = phs@[k];
                            let phb = phs@[t as int];
                            assert(false);
                        }
                    }
                }
            }
            match handle_load_segment(ph, ko, voff, img, pt, fa, &mut fresh) {
                Ok(_) => {},
                Err(e) => {
                    return Err(e);
                },
            }
            proof {
                assert forall|p: u64| pt@.contains_key(p) implies exists|k: int|
                    0 <= k < t + 1 && phs@[k].ptype == PT_LOAD
                    && #[trigger] in_seg_pages(phs@[k], voff, p) by {
                    if !in_seg_pages(phs@[t as int], voff, p) {
                        assert(pt_before.contains_key(p));
                        let k = choose|k: int| 0 <= k < t
                            && phs@[k].ptype == PT_LOAD
                            && #[trigger] in_seg_pages(phs@[k], voff, p);
                        assert(0 <= k < t + 1 && phs@[k].ptype == PT_LOAD
                            && in_seg_pages(phs@[k], voff, p));
                    }
                }
                if loads_page_disjoint(phs@, voff) {
                    assert forall|k: int| 0 <= k < t + 1
                        && (#[trigger] phs@[k]).ptype == PT_LOAD
                        && phs@[k].memsz > phs@[k].filesz implies
                        seg_bss_fresh(phs@[k], voff, ko, len0, pt@, fresh@) by {
                        assert(phdr_ok(phs@[k], voff, len0));
                        if k < t {
                            assert forall|p: u64| #[trigger] bss_touched(phs@[k],
                                voff, p) implies pt@.contains_key(p)
                                && pt@[p] == pt_before[p] by {
                                if !in_seg_pages(phs@[k], voff, p) {
                                    lemma_seg_bss_page(phs@[k], voff, p);
                                }
                                assert(in_seg_pages(phs@[k], voff, p));
                                let pha = phs@[k];
                                let phb = phs@[t as int];
                                assert(!in_seg_pages(phs@[t as int], voff, p));
                                assert(pt@.contains_key(p)
                                    == pt_before.contains_key(p));
                            }
                            assert forall|p: u64| #[trigger] bss_touched(phs@[k],
                                voff, p) implies fresh_keyed(fresh@, pt@[p].frame)
                                by {
                                lemma_fresh_prefix(fresh_before, fresh@,
                                    pt_before[p].frame);
                            }
                        }
                    }
                    assert forall|k: int| 0 <= k < t + 1
                        && (#[trigger] phs@[k]).ptype == PT_LOAD implies
                        segment_loaded(phs@[k], voff, ko, img@, pt@, fresh@) by {
                        assert(phdr_ok(phs@[k], voff, len0));
                        if k < t {
                            if seg_span(phs@[k]) > 0 {
                                assert forall|p: u64| #![trigger in_seg_pages(phs@[k], voff, p)]
                                    in_seg_pages(phs@[k], voff, p) implies
                                    (pt@.contains_key(p)
                                        == pt_before.contains_key(p))
                                    && (pt_before.contains_key(p)
                                        ==> pt@[p] == pt_before[p]) by {
                                    // the two segments' page ranges are
                                    // disjoint, so p lies outside the one
                                    // just handled
                                    let pha = phs@[k];
                                    let phb = phs@[t as int];
                                    assert(!in_seg_pages(phs@[t as int], voff, p));
                                }
                                lemma_segment_loaded_preserved(phs@[k], voff, ko,
                                    img@, pt_before, pt@, fresh_before, fresh@);
                            } else {
                                assert(segment_loaded(phs@[k], voff, ko, img@,
                                    pt@, fresh@));
                            }
                        }
                    }
                }
                lemma_count_tls_take(phs@, t as int);
            }
        } else if ph.ptype == PT_TLS {
            if tls.is_none() {
                tls = Some(handle_tls_segment(ph, voff));
                proof {
                    lemma_count_tls_take(phs@, t as int);
                    assert(phs@[t as int].ptype == PT_TLS
                        && tls.unwrap() == spec_tls(phs@[t as int], voff));
                }
            } else {
                proof {
                    lemma_count_tls_take(phs@, t as int);
                    lemma_count_tls_prefix(phs@, t as int + 1);
                    assert(count_tls(phs@) >= 2);
                }
                return Err(LoadError::MultipleTlsSegments);
            }
        } else {
            proof {
                lemma_count_tls_take(phs@, t as int);
            }
        }
        t += 1;
    }
    proof {
        assert(phs@.take(n as int) =~= phs@);
    }
    Ok((tls, fresh, w))
}

/// Everything `load_kernel` produces: the displaced entry point, the TLS
/// template if one exists, the top-level usage summary, the contents
/// written into freshly allocated frames, and the ghost log of relocation
/// stores.
pub struct LoadOutcome {
    pub entry: u64,
    pub tls_template: Option<TlsTemplate>,
    pub used_entries: UsedLevel4Entries,
    pub fresh_frames: Vec<FrameContents>,
    pub relocation_writes: Ghost<Seq<WriteOp>>,
}

/// The whole contract of a successful load, stated against the original
/// image `img0`, the final image `img`, and the final page table `pt`.
pub open spec fn load_ok(
    ko: u64,
    img0: Seq<u8>,
    img: Seq<u8>,
    pt: Map<u64, MapTarget>,
    out: LoadOutcome,
) -> bool {
    let h = spec_header(img0);
    let voff = spec_voff(h.etype);
    let phs = spec_phdrs(img0, h);
    &&& ko % 4096 == 0
    &&& header_structure_ok(img0)
    &&& (h.etype == ET_EXEC || h.etype == ET_DYN)
    &&& phdr_table_ok(img0, h)
    &&& phdrs_ok(phs, voff, img0.len() as int)
    &&& h.entry + voff <= u64::MAX
    &&& out.entry == h.entry + voff
    &&& img == apply_writes(img0, out.relocation_writes@)
    &&& write_laws(out.relocation_writes@, phs, voff, img0.len() as int)
    &&& count_tls(phs) <= 1
    &&& (out.tls_template is Some <==> count_tls(phs) >= 1)
    &&& (match out.tls_template {
        Some(tm) => exists|k: int| 0 <= k < phs.len()
            && (#[trigger] phs[k]).ptype == PT_TLS && tm == spec_tls(phs[k], voff),
        None => true,
    })
    &&& out.used_entries.wf()
    &&& (forall|i: int| 0 <= i < 512 ==> ((#[trigger] out.used_entries@[i])
        <==> covers(phs, voff, i)))
    &&& fresh_distinct(out.fresh_frames@)
    &&& (forall|i: int| 0 <= i < out.fresh_frames@.len()
        ==> (#[trigger] out.fresh_frames@[i]).bytes@.len() == 4096)
    &&& (loads_page_disjoint(phs, voff) ==> forall|k: int| 0 <= k < phs.len()
        && (#[trigger] phs[k]).ptype == PT_LOAD
        ==> segment_loaded(phs[k], voff, ko, img, pt, out.fresh_frames@))
    &&& (writes_disjoint(out.relocation_writes@) ==> forall|k: int|
        0 <= k < out.relocation_writes@.len() ==> crate::bytes::le64_at(img,
        (#[trigger] out.relocation_writes@[k]).off as int)
        == out.relocation_writes@[k].value)
    &&& ((forall|k: int| 0 <= k < phs.len()
        ==> (#[trigger] phs[k]).ptype != PT_DYNAMIC)
        ==> out.relocation_writes@ == Seq::<WriteOp>::empty())
    &&& (forall|d: int| #[trigger] crate::reloc::single_dynamic(phs, d) ==> {
        let dph = phs[d];
        &&& (crate::reloc::dyn_tag_count(img0, dph.offset as int,
            crate::reloc::dyn_count(dph), crate::reloc::DT_RELA) == 0
            || crate::reloc::rela_tags_unique(img0, dph))
        &&& (crate::reloc::dyn_tag_count(img0, dph.offset as int,
            crate::reloc::dyn_count(dph), crate::reloc::DT_RELA) == 0
            ==> out.relocation_writes@ == Seq::<WriteOp>::empty())
        &&& (crate::reloc::rela_tags_unique(img0, dph)
            ==> out.relocation_writes@ == crate::reloc::rela_writes(img0, phs,
                voff, dph) && crate::reloc::rela_entries_ok(img0, phs, voff, dph))
    })
    &&& (forall|p: u64| #[trigger] pt.contains_key(p) ==> exists|k: int|
        0 <= k < phs.len() && phs[k].ptype == PT_LOAD
        && #[trigger] in_seg_pages(phs[k], voff, p))
    &&& (loads_page_disjoint(phs, voff) ==> forall|k: int| 0 <= k < phs.len()
        && (#[trigger] phs[k]).ptype == PT_LOAD && phs[k].memsz > phs[k].filesz
        ==> seg_bss_fresh(phs[k], voff, ko, img0.len() as int, pt,
            out.fresh_frames@))
}

/// An aligned base and a structurally sound header of a supported type,
/// with a readable program-header table and an entry point that fits after
/// displacement.
pub open spec fn plain_header_ok(ko: u64, img: Seq<u8>) -> bool {
    let h = spec_header(img);
    &&& ko % 4096 == 0
    &&& header_structure_ok(img)
    &&& (h.etype == ET_EXEC || h.etype == ET_DYN)
    &&& h.entry + spec_voff(h.etype) <= u64::MAX
    &&& phdr_table_ok(img, h)
}

/// Inputs on which loading is owed to succeed: an aligned, structurally
/// sound image of a supported type whose loadable segments are wholly
/// file-backed (no zero tail) and lie on disjoint pages, with no dynamic
/// section and at most one TLS segment.
pub open spec fn plain_image_ok(ko: u64, img: Seq<u8>) -> bool {
    let h = spec_header(img);
    &&& plain_header_ok(ko, img)
    &&& plain_segments(spec_phdrs(img, h), spec_voff(h.etype), img.len() as int)
    &&& count_tls(spec_phdrs(img, h)) <= 1
}

/// Load the kernel ELF image residing at physical address `kernel_offset`
/// into the given freshly constructed page table, drawing the frames for
/// zero-initialised memory from `frame_allocator`.
///
/// Relocations are applied to `image` in place; the contents of freshly
/// allocated frames are returned in the outcome so that a caller holding an
/// identity mapping can install them with plain stores.
pub fn load_kernel(
    kernel_offset: u64,
    image: &mut Vec<u8>,
    page_table: &mut KernelPageTable,
    frame_allocator: &mut BootFrames,
) -> (r: Result<LoadOutcome, LoadError>)
    requires
        old(page_table).wf(),
        old(page_table)@ == Map::<u64, MapTarget>::empty(),
        pool_wf(old(frame_allocator)@, kernel_offset, old(image)@.len() as int),
        kernel_offset + old(image)@.len() <= u64::MAX,
    ensures
        final(page_table).wf(),
        final(image)@.len() == old(image)@.len(),
        r matches Ok(out) ==> load_ok(kernel_offset, old(image)@, final(image)@,
            final(page_table)@, out),
        kernel_offset % 4096 != 0 ==> r == Err::<LoadOutcome, LoadError>(
            LoadError::ImageNotAligned),
        plain_image_ok(kernel_offset, old(image)@) ==> r is Ok,
        r matches Ok(out) ==> old(frame_allocator)@.len()
            == final(frame_allocator)@.len() + out.fresh_frames@.len(),
        (plain_header_ok(kernel_offset, old(image)@)
            && plain_segments(spec_phdrs(old(image)@, spec_header(old(image)@)),
                spec_voff(spec_header(old(image)@).etype), old(image)@.len() as int)
            && count_tls(spec_phdrs(old(image)@, spec_header(old(image)@))) >= 2)
            ==> r == Err::<LoadOutcome, LoadError>(LoadError::MultipleTlsSegments),
        r == Err::<LoadOutcome, LoadError>(LoadError::MultipleTlsSegments)
            ==> count_tls(spec_phdrs(old(image)@, spec_header(old(image)@))) >= 2,
        (kernel_offset % 4096 != 0
            || !(header_structure_ok(old(image)@)
                && (spec_header(old(image)@).etype == ET_EXEC
                    || spec_header(old(image)@).etype == ET_DYN))
            || spec_header(old(image)@).entry
                + spec_voff(spec_header(old(image)@).etype) > u64::MAX
            || !phdr_table_ok(old(image)@, spec_header(old(image)@))
            || !phdrs_ok(spec_phdrs(old(image)@, spec_header(old(image)@)),
                spec_voff(spec_header(old(image)@).etype), old(image)@.len() as int))
            ==> final(image)@ == old(image)@
                && final(page_table)@ == old(page_table)@
                && final(frame_allocator)@ == old(frame_allocator)@,
{
    if kernel_offset % 4096 != 0 {
        return Err(LoadError::ImageNotAligned);
    }
    let h = match parse_header(image) {
        Ok(h) => h,
        Err(e) => {
            return Err(e);
        },
    };
    let voff: u64 = if h.etype == ET_EXEC {
        0
    } else {
        PIE_OFFSET
    };
    proof {
        assert(voff == spec_voff(spec_header(image@).etype));
        assert(voff % 4096 == 0) by (nonlinear_arith)
            requires voff == 0 || voff == 0x400000;
    }
    if h.entry > u64::MAX - voff {
        return Err(LoadError::AddressOverflow);
    }
    let entry: u64 = h.entry + voff;
    let phs = match parse_phdrs(image, &h) {
        Ok(v) => v,
        Err(e) => {
            return Err(e);
        },
    };
    let ghost img0 = image@;
    let (tls, fresh, w) = match load_segments(image, &phs, kernel_offset, voff,
        page_table, frame_allocator) {
        Ok(out) => out,
        Err(e) => {
            return Err(e);
        },
    };
    proof {
        assert forall|k: int| 0 <= k < phs@.len() && phs@[k].ptype == PT_LOAD
            implies (#[trigger] phs@[k]).vaddr + voff + phs@[k].memsz
                <= u64::MAX by {
            assert(phdr_ok(phs@[k], voff, img0.len() as int));
        }
    }
    let used = used_level_4_entries(&phs, voff);
    Ok(LoadOutcome {
        entry,
        tls_template: tls,
        used_entries: used,
        fresh_frames: fresh,
        relocation_writes: w,
    })
}

} // verus!
