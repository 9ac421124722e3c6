//! The dynamic relocator: walk each `PT_DYNAMIC` segment, locate its `RELA`
//! table, and patch every `R_X86_64_RELATIVE` target in the physical image
//! before any mapping is installed.  The stores performed are tracked in a
//! ghost log, so callers can reason about exactly which bytes changed.

use vstd::prelude::*;
use crate::bytes::{le64_at, read_u64, store64, write_u64, lemma_store64_read_back};
use crate::elf::{Phdr, PT_DYNAMIC, spec_find_offset, find_offset, phdrs_ok, phdr_ok,
    lemma_find_offset_in_bounds};
use crate::errors::LoadError;

verus! {

pub const DT_RELA: u64 = 7;
pub const DT_RELASZ: u64 = 8;
pub const DT_RELAENT: u64 = 9;
pub const R_X86_64_RELATIVE: u64 = 8;

/// One 64-bit store applied to the image by the relocator.
pub struct WriteOp {
    /// File offset of the store.
    pub off: u64,
    /// Value stored.
    pub value: u64,
    /// Virtual address the relocation named.
    pub vaddr: u64,
    /// Addend of the relocation entry.
    pub addend: u64,
}

/// The image after a sequence of relocation stores.
pub open spec fn apply_writes(img: Seq<u8>, ws: Seq<WriteOp>) -> Seq<u8>
    decreases ws.len(),
{
    if ws.len() == 0 {
        img
    } else {
        store64(apply_writes(img, ws.drop_last()), ws.last().off as int, ws.last().value)
    }
}

/// Every logged store obeys the relocation rule: it wrote
/// `virtual_address_offset + addend` at the file offset backing its target
/// virtual address, wholly inside the image.
pub open spec fn write_laws(ws: Seq<WriteOp>, phs: Seq<Phdr>, voff: u64, img_len: int) -> bool {
    forall|k: int| 0 <= k < ws.len() ==> {
        &&& (#[trigger] ws[k]).value == voff + ws[k].addend
        &&& spec_find_offset(phs, ws[k].vaddr) == Some(ws[k].off)
        &&& ws[k].off + 8 <= img_len
    }
}

/// No two stores overlap.
pub open spec fn writes_disjoint(ws: Seq<WriteOp>) -> bool {
    forall|i: int, j: int| 0 <= i < ws.len() && 0 <= j < ws.len() && i != j
        ==> (#[trigger] ws[i]).off + 8 <= (#[trigger] ws[j]).off
            || ws[j].off + 8 <= ws[i].off
}

/// Applying stores never changes the image's length.
pub proof fn lemma_apply_writes_len(img: Seq<u8>, ws: Seq<WriteOp>)
    ensures
        apply_writes(img, ws).len() == img.len(),
    decreases ws.len(),
{
    if ws.len() > 0 {
        lemma_apply_writes_len(img, ws.drop_last());
    }
}

/// Applying a concatenation applies the two logs in order.
pub proof fn lemma_apply_writes_concat(img: Seq<u8>, a: Seq<WriteOp>, b: Seq<WriteOp>)
    ensures
        apply_writes(img, a + b) == apply_writes(apply_writes(img, a), b),
    decreases b.len(),
{
    if b.len() == 0 {
        assert(a + b =~= a);
    } else {
        lemma_apply_writes_concat(img, a, b.drop_last());
        assert((a + b).drop_last() =~= a + b.drop_last());
        assert((a + b).last() == b.last());
    }
}

/// A byte outside every store is unchanged by the whole log.
pub proof fn lemma_apply_writes_untouched(img: Seq<u8>, ws: Seq<WriteOp>, j: int)
    requires
        0 <= j < img.len(),
        forall|k: int| 0 <= k < ws.len() ==> j < (#[trigger] ws[k]).off
            || ws[k].off + 8 <= j,
    ensures
        apply_writes(img, ws)[j] == img[j],
    decreases ws.len(),
{
    if ws.len() > 0 {
        assert(ws[ws.len() - 1] == ws.last());
        lemma_apply_writes_untouched(img, ws.drop_last(), j);
        lemma_apply_writes_len(img, ws.drop_last());
    }
}

/// The relocation law: after the log has been applied, every target still
/// reads back the value its own store put there, provided no two stores
/// overlapped.  This is the whole-image statement of
/// `*target == virtual_address_offset + addend`.
pub proof fn lemma_relocations_settled(img0: Seq<u8>, ws: Seq<WriteOp>, k: int)
    requires
        writes_disjoint(ws),
        0 <= k < ws.len(),
        ws[k].off + 8 <= img0.len(),
    ensures
        le64_at(apply_writes(img0, ws), ws[k].off as int) == ws[k].value,
    decreases ws.len(),
{
    lemma_apply_writes_len(img0, ws.drop_last());
    if k == ws.len() - 1 {
        assert(ws[k] == ws.last());
        lemma_store64_read_back(
            apply_writes(img0, ws.drop_last()), ws.last().off as int, ws.last().value);
    } else {
        assert(forall|i: int, j: int| 0 <= i < ws.drop_last().len()
            && 0 <= j < ws.drop_last().len() && i != j
            ==> (#[trigger] ws.drop_last()[i]).off + 8 <= (#[trigger] ws.drop_last()[j]).off
                || ws.drop_last()[j].off + 8 <= ws.drop_last()[i].off);
        lemma_relocations_settled(img0, ws.drop_last(), k);
        let prev = apply_writes(img0, ws.drop_last());
        let lst = ws.last();
        assert(ws[ws.len() - 1] == lst);
        assert(lst.off + 8 <= ws[k].off || ws[k].off + 8 <= lst.off);
        assert forall|b: int| ws[k].off <= b < ws[k].off + 8 implies
            apply_writes(img0, ws)[b] == prev[b] by {
            assert(apply_writes(img0, ws) == store64(prev, lst.off as int, lst.value));
        }
        assert(le64_at(apply_writes(img0, ws), ws[k].off as int)
            == le64_at(prev, ws[k].off as int));
    }
}

/// One explicit-addend relocation entry.
#[derive(Clone, Copy, Debug, PartialEq, Eq, Structural)]
pub struct RelaEntry {
    pub offset: u64,
    pub info: u64,
    pub addend: u64,
}

/// The relocation entry stored at byte offset `base`.
pub open spec fn spec_rela_at(img: Seq<u8>, base: int) -> RelaEntry {
    RelaEntry {
        offset: le64_at(img, base),
        info: le64_at(img, base + 8),
        addend: le64_at(img, base + 16),
    }
}

/// Read the whole `RELA` table before any of its targets is patched.
fn read_rela_table(img: &Vec<u8>, tbl: u64, ent: u64, count: u64) -> (r: Vec<RelaEntry>)
    requires
        ent >= 1,
        count >= 1,
        tbl + (count - 1) * ent + 24 <= img@.len(),
    ensures
        r@.len() == count,
        forall|k: int| 0 <= k < count ==> r@[k]
            == spec_rela_at(img@, tbl + k * ent),
{
    let mut v: Vec<RelaEntry> = Vec::new();
    let ilen0: usize = img.len();
    let mut k: u64 = 0;
    while k < count
        invariant
            ent >= 1,
            count >= 1,
            tbl + (count - 1) * ent + 24 <= img@.len(),
            img@.len() <= usize::MAX,
            k <= count,
            v@.len() == k,
            forall|j: int| 0 <= j < k ==> v@[j] == spec_rela_at(img@, tbl + j * ent),
        decreases count - k,
    {
        proof {
            assert(k * ent <= (count - 1) * ent) by (nonlinear_arith)
                requires k <= count - 1 && ent >= 0;
        }
        let base64: u64 = tbl + k * ent;
        proof {
            assert(base64 + 24 <= img@.len());
        }
        let base: usize = base64 as usize;
        let e = RelaEntry {
            offset: read_u64(img, base),
            info: read_u64(img, base + 8),
            addend: read_u64(img, base + 16),
        };
        v.push(e);
        k += 1;
    }
    v
}

/// How many of the first `n` dynamic entries at `base` carry `tag`.
pub open spec fn dyn_tag_count(img: Seq<u8>, base: int, n: int, tag: u64) -> int
    decreases n,
{
    if n <= 0 {
        0
    } else {
        dyn_tag_count(img, base, n - 1, tag) + (if le64_at(img, base + 16 * (n - 1)) == tag {
            1int
        } else {
            0int
        })
    }
}

/// The value of the first dynamic entry carrying `tag` among the first `n`.
pub open spec fn dyn_tag_value(img: Seq<u8>, base: int, n: int, tag: u64) -> u64
    decreases n,
{
    if n <= 0 {
        0
    } else if dyn_tag_count(img, base, n - 1, tag) >= 1 {
        dyn_tag_value(img, base, n - 1, tag)
    } else if le64_at(img, base + 16 * (n - 1)) == tag {
        le64_at(img, base + 16 * (n - 1) + 8)
    } else {
        0
    }
}

proof fn lemma_dyn_tag_count_mono(img: Seq<u8>, base: int, n1: int, n2: int, tag: u64)
    requires
        n1 <= n2,
    ensures
        dyn_tag_count(img, base, n1, tag) <= dyn_tag_count(img, base, n2, tag),
    decreases n2 - n1,
{
    if n1 < n2 {
        lemma_dyn_tag_count_mono(img, base, n1, n2 - 1, tag);
    }
}

/// Number of dynamic entries a `PT_DYNAMIC` segment holds.
pub open spec fn dyn_count(ph: Phdr) -> int {
    ph.filesz as int / 16
}

/// The segment names a relocation table exactly once: one `DT_RELA`, one
/// `DT_RELASZ`, one `DT_RELAENT`, the stride nonzero.
pub open spec fn rela_tags_unique(img: Seq<u8>, ph: Phdr) -> bool {
    &&& dyn_tag_count(img, ph.offset as int, dyn_count(ph), DT_RELA) == 1
    &&& dyn_tag_count(img, ph.offset as int, dyn_count(ph), DT_RELASZ) == 1
    &&& dyn_tag_count(img, ph.offset as int, dyn_count(ph), DT_RELAENT) == 1
    &&& dyn_tag_value(img, ph.offset as int, dyn_count(ph), DT_RELAENT) > 0
}

/// File offset of the relocation table the tags announce.
pub open spec fn rela_table_off(img: Seq<u8>, ph: Phdr) -> u64 {
    dyn_tag_value(img, ph.offset as int, dyn_count(ph), DT_RELA)
}

/// Stride of one relocation entry.
pub open spec fn rela_stride(img: Seq<u8>, ph: Phdr) -> u64 {
    dyn_tag_value(img, ph.offset as int, dyn_count(ph), DT_RELAENT)
}

/// Number of relocation entries the tags announce.
pub open spec fn rela_count(img: Seq<u8>, ph: Phdr) -> int {
    dyn_tag_value(img, ph.offset as int, dyn_count(ph), DT_RELASZ) as int
        / rela_stride(img, ph) as int
}

/// The `k`-th relocation entry of the announced table.
pub open spec fn rela_entry(img: Seq<u8>, ph: Phdr, k: int) -> RelaEntry {
    spec_rela_at(img, rela_table_off(img, ph) as int + k * rela_stride(img, ph))
}

/// The stores a well-formed table demands, read from `img`.
pub open spec fn rela_writes(img: Seq<u8>, phs: Seq<Phdr>, voff: u64, ph: Phdr) -> Seq<WriteOp> {
    Seq::new(rela_count(img, ph) as nat, |k: int| {
        let r = rela_entry(img, ph, k);
        WriteOp {
            off: spec_find_offset(phs, r.offset).unwrap(),
            value: (voff + r.addend) as u64,
            vaddr: r.offset,
            addend: r.addend,
        }
    })
}

/// Every announced entry is a supported relocation whose target is mapped,
/// fits in the image, and whose displaced addend fits in 64 bits.
pub open spec fn rela_entries_ok(img: Seq<u8>, phs: Seq<Phdr>, voff: u64, ph: Phdr) -> bool {
    forall|k: int| 0 <= k < rela_count(img, ph) ==> {
        let r = #[trigger] rela_entry(img, ph, k);
        &&& (r.info >> 32u64) == 0
        &&& (r.info & 0xffff_ffffu64) == R_X86_64_RELATIVE
        &&& spec_find_offset(phs, r.offset) is Some
        &&& voff + r.addend <= u64::MAX
        &&& spec_find_offset(phs, r.offset).unwrap() + 8 <= img.len()
    }
}

/// Walk one `PT_DYNAMIC` segment and apply its `R_X86_64_RELATIVE`
/// relocations to the image, returning the log of stores performed.  On
/// success the log is exactly the announced table, read before any store;
/// each error names its cause in the dynamic entries or the table.
#[verifier::rlimit(100)]
pub fn handle_dynamic_segment(img: &mut Vec<u8>, ph: Phdr, phs: &Vec<Phdr>, voff: u64)
    -> (r: Result<Ghost<Seq<WriteOp>>, LoadError>)
    requires
        ph.ptype == PT_DYNAMIC,
        phdr_ok(ph, voff, old(img)@.len() as int),
        phdrs_ok(phs@, voff, old(img)@.len() as int),
        old(img)@.len() >= 64,
    ensures
        final(img)@.len() == old(img)@.len(),
        r matches Ok(w) ==> {
            &&& final(img)@ == apply_writes(old(img)@, w@)
            &&& write_laws(w@, phs@, voff, old(img)@.len() as int)
            &&& (dyn_tag_count(old(img)@, ph.offset as int, dyn_count(ph), DT_RELA) == 0
                || rela_tags_unique(old(img)@, ph))
            &&& (dyn_tag_count(old(img)@, ph.offset as int, dyn_count(ph), DT_RELA) == 0
                ==> w@ == Seq::<WriteOp>::empty())
            &&& (rela_tags_unique(old(img)@, ph) ==> w@ == rela_writes(old(img)@, phs@,
                voff, ph) && rela_entries_ok(old(img)@, phs@, voff, ph))
        },
        r matches Err(e2) ==> {
            let img0 = old(img)@;
            let base = ph.offset as int;
            let n = dyn_count(ph);
            &&& (e2 == LoadError::MultipleRela ==> dyn_tag_count(img0, base, n, DT_RELA) >= 2)
            &&& (e2 == LoadError::MultipleRelaSize ==> dyn_tag_count(img0, base, n,
                DT_RELASZ) >= 2)
            &&& (e2 == LoadError::MultipleRelaEnt ==> dyn_tag_count(img0, base, n,
                DT_RELAENT) >= 2)
            &&& (e2 == LoadError::StrayRelaInfo ==> dyn_tag_count(img0, base, n, DT_RELA) == 0
                && (dyn_tag_count(img0, base, n, DT_RELASZ) >= 1
                    || dyn_tag_count(img0, base, n, DT_RELAENT) >= 1))
            &&& (e2 == LoadError::RelaSizeMissing ==> dyn_tag_count(img0, base, n, DT_RELA)
                == 1 && dyn_tag_count(img0, base, n, DT_RELASZ) == 0)
            &&& (e2 == LoadError::RelaEntMissing ==> dyn_tag_count(img0, base, n, DT_RELA)
                == 1 && dyn_tag_count(img0, base, n, DT_RELAENT) == 0)
            &&& (e2 == LoadError::InvalidRelaEnt ==> dyn_tag_count(img0, base, n, DT_RELAENT)
                >= 1 && dyn_tag_value(img0, base, n, DT_RELAENT) == 0)
            &&& (e2 == LoadError::RelaTableOutOfBounds ==> rela_tags_unique(img0, ph)
                && rela_count(img0, ph) >= 1
                && rela_table_off(img0, ph) + (rela_count(img0, ph) - 1)
                    * rela_stride(img0, ph) + 24 > img0.len())
            &&& (e2 == LoadError::SymbolRelocationUnsupported ==> rela_tags_unique(img0, ph)
                && exists|k: int| 0 <= k < rela_count(img0, ph)
                    && ((#[trigger] rela_entry(img0, ph, k)).info >> 32u64) != 0)
            &&& (e2 == LoadError::UnsupportedRelocationType ==> rela_tags_unique(img0, ph)
                && exists|k: int| 0 <= k < rela_count(img0, ph)
                    && ((#[trigger] rela_entry(img0, ph, k)).info & 0xffff_ffffu64)
                        != R_X86_64_RELATIVE)
            &&& (e2 == LoadError::RelocationDestinationUnmapped ==> rela_tags_unique(img0, ph)
                && exists|k: int| 0 <= k < rela_count(img0, ph)
                    && spec_find_offset(phs@, (#[trigger] rela_entry(img0, ph, k)).offset)
                        is None)
            &&& (e2 == LoadError::RelocationOverflow ==> rela_tags_unique(img0, ph)
                && exists|k: int| 0 <= k < rela_count(img0, ph)
                    && voff + (#[trigger] rela_entry(img0, ph, k)).addend > u64::MAX)
            &&& (e2 == LoadError::RelocationOutOfBounds ==> rela_tags_unique(img0, ph)
                && exists|k: int| 0 <= k < rela_count(img0, ph)
                    && (spec_find_offset(phs@, (#[trigger] rela_entry(img0, ph, k)).offset)
                        matches Some(o) && o + 8 > img0.len()))
            &&& (e2 == LoadError::MultipleRela || e2 == LoadError::MultipleRelaSize
                || e2 == LoadError::MultipleRelaEnt || e2 == LoadError::StrayRelaInfo
                || e2 == LoadError::RelaSizeMissing || e2 == LoadError::RelaEntMissing
                || e2 == LoadError::InvalidRelaEnt || e2 == LoadError::RelaTableOutOfBounds
                || e2 == LoadError::SymbolRelocationUnsupported
                || e2 == LoadError::UnsupportedRelocationType
                || e2 == LoadError::RelocationDestinationUnmapped
                || e2 == LoadError::RelocationOverflow
                || e2 == LoadError::RelocationOutOfBounds)
            // the dynamic-entry scan performs no store, so those errors
            // leave the image untouched
            &&& ((e2 == LoadError::MultipleRela || e2 == LoadError::MultipleRelaSize
                || e2 == LoadError::MultipleRelaEnt || e2 == LoadError::StrayRelaInfo
                || e2 == LoadError::RelaSizeMissing || e2 == LoadError::RelaEntMissing
                || e2 == LoadError::InvalidRelaEnt
                || e2 == LoadError::RelaTableOutOfBounds)
                ==> final(img)@ == old(img)@)
        },
{
    let ghost img0 = img@;
    let ilen0: usize = img.len();
    let count_dyn: u64 = ph.filesz / 16;
    let ghost bs = ph.offset as int;
    let mut rela: Option<u64> = None;
    let mut rela_size: Option<u64> = None;
    let mut rela_ent: Option<u64> = None;
    let mut i: u64 = 0;
    proof {
        crate::arith::lemma_div_mod_split(ph.filesz as int, 16);
        assert(ilen0 == img0.len());
    }
    while i < count_dyn
        invariant
            img0 == old(img)@,
            img@ == img0,
            img0.len() <= usize::MAX,
            bs == ph.offset as int,
            count_dyn == dyn_count(ph),
            count_dyn * 16 <= ph.filesz,
            ph.offset + ph.filesz <= img0.len(),
            i <= count_dyn,
            match rela {
                None => dyn_tag_count(img0, bs, i as int, DT_RELA) == 0,
                Some(v) => dyn_tag_count(img0, bs, i as int, DT_RELA) == 1
                    && v == dyn_tag_value(img0, bs, i as int, DT_RELA),
            },
            match rela_size {
                None => dyn_tag_count(img0, bs, i as int, DT_RELASZ) == 0,
                Some(v) => dyn_tag_count(img0, bs, i as int, DT_RELASZ) == 1
                    && v == dyn_tag_value(img0, bs, i as int, DT_RELASZ),
            },
            match rela_ent {
                None => dyn_tag_count(img0, bs, i as int, DT_RELAENT) == 0,
                Some(v) => dyn_tag_count(img0, bs, i as int, DT_RELAENT) == 1
                    && v == dyn_tag_value(img0, bs, i as int, DT_RELAENT),
            },
        decreases count_dyn - i,
    {
        proof {
            assert(i * 16 + 16 <= count_dyn * 16) by (nonlinear_arith)
                requires i + 1 <= count_dyn;
        }
        let base: usize = (ph.offset + i * 16) as usize;
        let tag = read_u64(img, base);
        let val = read_u64(img, base + 8);
        proof {
            assert(le64_at(img0, bs + 16 * (i as int)) == tag);
            assert(le64_at(img0, bs + 16 * (i as int) + 8) == val);
        }
        if tag == DT_RELA {
            if rela.is_some() {
                proof {
                    lemma_dyn_tag_count_mono(img0, bs, i as int + 1, count_dyn as int,
                        DT_RELA);
                }
                return Err(LoadError::MultipleRela);
            }
            rela = Some(val);
        } else if tag == DT_RELASZ {
            if rela_size.is_some() {
                proof {
                    lemma_dyn_tag_count_mono(img0, bs, i as int + 1, count_dyn as int,
                        DT_RELASZ);
                }
                return Err(LoadError::MultipleRelaSize);
            }
            rela_size = Some(val);
        } else if tag == DT_RELAENT {
            if rela_ent.is_some() {
                proof {
                    lemma_dyn_tag_count_mono(img0, bs, i as int + 1, count_dyn as int,
                        DT_RELAENT);
                }
                return Err(LoadError::MultipleRelaEnt);
            }
            rela_ent = Some(val);
        }
        i += 1;
    }
    let tbl = match rela {
        Some(t) => t,
        None => {
            // The segment carries no relocations; a stray size or stride
            // entry without a table is malformed.
            if rela_size.is_some() || rela_ent.is_some() {
                return Err(LoadError::StrayRelaInfo);
            }
            return Ok(Ghost(Seq::empty()));
        },
    };
    let total = match rela_size {
        Some(t) => t,
        None => { return Err(LoadError::RelaSizeMissing); },
    };
    let ent = match rela_ent {
        Some(t) => t,
        None => { return Err(LoadError::RelaEntMissing); },
    };
    if ent == 0 {
        return Err(LoadError::InvalidRelaEnt);
    }
    proof {
        assert(rela_tags_unique(img0, ph));
        assert(tbl == rela_table_off(img0, ph));
        assert(ent == rela_stride(img0, ph));
        assert(total as int / ent as int == rela_count(img0, ph));
    }
    let count = total / ent;
    if count == 0 {
        proof {
            assert(rela_writes(img0, phs@, voff, ph) =~= Seq::<WriteOp>::empty());
        }
        return Ok(Ghost(Seq::empty()));
    }
    proof {
        crate::arith::lemma_div_mod_split(total as int, ent as int);
        assert((count - 1) * ent <= count * ent - ent) by (nonlinear_arith)
            requires count >= 1 && ent >= 1;
        assert(count * ent == ent * count) by (nonlinear_arith);
    }
    let span: u64 = (count - 1) * ent;
    let len: u64 = img.len() as u64;
    if span > u64::MAX - 24 || span + 24 > len || tbl > len - (span + 24) {
        return Err(LoadError::RelaTableOutOfBounds);
    }
    let entries = read_rela_table(img, tbl, ent, count);
    proof {
        assert forall|k: int| 0 <= k < count implies entries@[k]
            == rela_entry(img0, ph, k) by {
            assert(entries@[k] == spec_rela_at(img0, tbl + k * ent));
        }
    }
    let ghost mut log: Seq<WriteOp> = Seq::empty();
    let mut k: usize = 0;
    let n = entries.len();
    while k < n
        invariant
            img0 == old(img)@,
            n == entries@.len(),
            n == count,
            count == rela_count(img0, ph),
            count >= 1,
            rela_tags_unique(img0, ph),
            forall|j: int| 0 <= j < count ==> #[trigger] entries@[j]
                == rela_entry(img0, ph, j),
            k <= n,
            img@.len() == img0.len(),
            img0.len() >= 64,
            img0.len() <= usize::MAX,
            phdrs_ok(phs@, voff, img0.len() as int),
            img@ == apply_writes(img0, log),
            write_laws(log, phs@, voff, img0.len() as int),
            log.len() == k,
            forall|j: int| 0 <= j < k ==> (#[trigger] log[j]).vaddr
                == rela_entry(img0, ph, j).offset
                && log[j].addend == rela_entry(img0, ph, j).addend,
            forall|j: int| 0 <= j < k ==> ((#[trigger] rela_entry(img0, ph, j)).info
                >> 32u64) == 0 && (rela_entry(img0, ph, j).info & 0xffff_ffffu64)
                == R_X86_64_RELATIVE,
        decreases n - k,
    {
        let e = entries[k];
        if (e.info >> 32u64) != 0 {
            proof {
                assert(rela_entry(img0, ph, k as int).info == e.info);
            }
            return Err(LoadError::SymbolRelocationUnsupported);
        }
        if (e.info & 0xffff_ffffu64) != R_X86_64_RELATIVE {
            proof {
                assert(rela_entry(img0, ph, k as int).info == e.info);
            }
            return Err(LoadError::UnsupportedRelocationType);
        }
        proof {
            assert forall|t: int| 0 <= t < phs@.len() && phs@[t].ptype == crate::elf::PT_LOAD
                implies (#[trigger] phs@[t]).offset + phs@[t].filesz <= u64::MAX by {
                assert(phdr_ok(phs@[t], voff, img0.len() as int));
            }
        }
        let off = match find_offset(phs, e.offset) {
            Some(o) => o,
            None => {
                proof {
                    assert(rela_entry(img0, ph, k as int).offset == e.offset);
                }
                return Err(LoadError::RelocationDestinationUnmapped);
            },
        };
        if e.addend > u64::MAX - voff {
            proof {
                assert(rela_entry(img0, ph, k as int).addend == e.addend);
            }
            return Err(LoadError::RelocationOverflow);
        }
        let value = voff + e.addend;
        proof {
            lemma_find_offset_in_bounds(phs@, e.offset, voff, img0.len() as int);
        }
        let ilen = img.len();
        if off > (ilen as u64) - 8 {
            proof {
                assert(rela_entry(img0, ph, k as int).offset == e.offset);
            }
            return Err(LoadError::RelocationOutOfBounds);
        }
        write_u64(img, off as usize, value);
        proof {
            let w = WriteOp { off, value, vaddr: e.offset, addend: e.addend };
            let log2 = log.push(w);
            assert(log2.drop_last() =~= log);
            assert(log2.last() == w);
            log = log2;
        }
        k += 1;
    }
    proof {
        assert(log =~= rela_writes(img0, phs@, voff, ph));
        assert forall|j: int| 0 <= j < rela_count(img0, ph) implies {
            let r = #[trigger] rela_entry(img0, ph, j);
            &&& (r.info >> 32u64) == 0
            &&& (r.info & 0xffff_ffffu64) == R_X86_64_RELATIVE
            &&& spec_find_offset(phs@, r.offset) is Some
            &&& voff + r.addend <= u64::MAX
            &&& spec_find_offset(phs@, r.offset).unwrap() + 8 <= img0.len()
        } by {
            assert(log[j].vaddr == rela_entry(img0, ph, j).offset);
            assert(log[j].addend == rela_entry(img0, ph, j).addend);
            assert(spec_find_offset(phs@, log[j].vaddr) == Some(log[j].off));
            assert(log[j].value == voff + log[j].addend);
            assert(log[j].off + 8 <= img0.len());
        }
        assert(rela_entries_ok(img0, phs@, voff, ph));
    }
    Ok(Ghost(log))
}

/// Exactly one `PT_DYNAMIC` header exists, at index `d`.
pub open spec fn single_dynamic(phs: Seq<Phdr>, d: int) -> bool {
    &&& 0 <= d < phs.len()
    &&& phs[d].ptype == PT_DYNAMIC
    &&& forall|j: int| 0 <= j < phs.len() && j != d ==> (#[trigger] phs[j]).ptype
        != PT_DYNAMIC
}

/// Apply the relocations of every `PT_DYNAMIC` segment, in table order.
/// With no dynamic segment nothing is written; with exactly one, the log is
/// that segment's announced table; once the log's stores are known to be
/// pairwise disjoint, every target reads back its stored value.
#[verifier::rlimit(100)]
pub fn apply_relocations(img: &mut Vec<u8>, phs: &Vec<Phdr>, voff: u64)
    -> (r: Result<Ghost<Seq<WriteOp>>, LoadError>)
    requires
        phdrs_ok(phs@, voff, old(img)@.len() as int),
        old(img)@.len() >= 64,
    ensures
        final(img)@.len() == old(img)@.len(),
        r matches Ok(w) ==> {
            &&& final(img)@ == apply_writes(old(img)@, w@)
            &&& write_laws(w@, phs@, voff, old(img)@.len() as int)
            &&& (writes_disjoint(w@) ==> forall|k: int| 0 <= k < w@.len()
                ==> le64_at(final(img)@, (#[trigger] w@[k]).off as int) == w@[k].value)
            &&& ((forall|k: int| 0 <= k < phs@.len()
                ==> (#[trigger] phs@[k]).ptype != PT_DYNAMIC)
                ==> w@ == Seq::<WriteOp>::empty())
            &&& (forall|d: int| #[trigger] single_dynamic(phs@, d) ==> {
                let ph = phs@[d];
                &&& (dyn_tag_count(old(img)@, ph.offset as int, dyn_count(ph), DT_RELA)
                    == 0 || rela_tags_unique(old(img)@, ph))
                &&& (dyn_tag_count(old(img)@, ph.offset as int, dyn_count(ph), DT_RELA)
                    == 0 ==> w@ == Seq::<WriteOp>::empty())
                &&& (rela_tags_unique(old(img)@, ph) ==> w@ == rela_writes(old(img)@,
                    phs@, voff, ph) && rela_entries_ok(old(img)@, phs@, voff, ph))
            })
        },
        (forall|k: int| 0 <= k < phs@.len()
            ==> (#[trigger] phs@[k]).ptype != PT_DYNAMIC) ==> r is Ok,
        r matches Err(e2) ==> (e2 == LoadError::MultipleRela
            || e2 == LoadError::MultipleRelaSize || e2 == LoadError::MultipleRelaEnt
            || e2 == LoadError::StrayRelaInfo || e2 == LoadError::RelaSizeMissing
            || e2 == LoadError::RelaEntMissing || e2 == LoadError::InvalidRelaEnt
            || e2 == LoadError::RelaTableOutOfBounds
            || e2 == LoadError::SymbolRelocationUnsupported
            || e2 == LoadError::UnsupportedRelocationType
            || e2 == LoadError::RelocationDestinationUnmapped
            || e2 == LoadError::RelocationOverflow
            || e2 == LoadError::RelocationOutOfBounds),
{
    let ghost img0 = img@;
    let ilen0: usize = img.len();
    let ghost mut log: Seq<WriteOp> = Seq::empty();
    let n = phs.len();
    let mut i: usize = 0;
    while i < n
        invariant
            img0 == old(img)@,
            n == phs@.len(),
            i <= n,
            img@.len() == img0.len(),
            img0.len() >= 64,
            phdrs_ok(phs@, voff, img0.len() as int),
            img@ == apply_writes(img0, log),
            write_laws(log, phs@, voff, img0.len() as int),
            (forall|k: int| 0 <= k < i ==> (#[trigger] phs@[k]).ptype != PT_DYNAMIC)
                ==> log == Seq::<WriteOp>::empty(),
            forall|d: int| #[trigger] single_dynamic(phs@, d) ==> {
                let ph = phs@[d];
                &&& (i <= d ==> log == Seq::<WriteOp>::empty())
                &&& (i > d ==> {
                    &&& (dyn_tag_count(img0, ph.offset as int, dyn_count(ph), DT_RELA)
                        == 0 || rela_tags_unique(img0, ph))
                    &&& (dyn_tag_count(img0, ph.offset as int, dyn_count(ph), DT_RELA)
                        == 0 ==> log == Seq::<WriteOp>::empty())
                    &&& (rela_tags_unique(img0, ph) ==> log == rela_writes(img0, phs@,
                        voff, ph) && rela_entries_ok(img0, phs@, voff, ph))
                })
            },
        decreases n - i,
    {
        let ph = phs[i];
        if ph.ptype == PT_DYNAMIC {
            assert(phdr_ok(phs@[i as int], voff, img0.len() as int));
            proof {
                // A single dynamic header can only be this one, so no store
                // has happened yet and the image is still the input.
                assert forall|d: int| #[trigger] single_dynamic(phs@, d) implies
                    d == i && log == Seq::<WriteOp>::empty() by {
                    assert(phs@[i as int].ptype == PT_DYNAMIC);
                }
            }
            let ghost before = img@;
            match handle_dynamic_segment(img, ph, phs, voff) {
                Ok(w) => {
                    proof {
                        lemma_apply_writes_concat(img0, log, w@);
                        assert(log + w@ =~= log + w@);
                        let log2 = log + w@;
                        assert forall|t: int| 0 <= t < log2.len() implies {
                            &&& (#[trigger] log2[t]).value == voff + log2[t].addend
                            &&& spec_find_offset(phs@, log2[t].vaddr) == Some(log2[t].off)
                            &&& log2[t].off + 8 <= img0.len()
                        } by {
                            if t < log.len() {
                                assert(log2[t] == log[t]);
                            } else {
                                assert(log2[t] == w@[t - log.len()]);
                            }
                        }
                        if single_dynamic(phs@, i as int) {
                            assert(before == apply_writes(img0, log));
                            assert(before == img0);
                            assert(log2 =~= w@);
                        }
                        log = log2;
                    }
                },
                Err(e) => { return Err(e); },
            }
        }
        i += 1;
    }
    proof {
        if writes_disjoint(log) {
            assert forall|k: int| 0 <= k < log.len() implies
                le64_at(img@, (#[trigger] log[k]).off as int) == log[k].value by {
                lemma_relocations_settled(img0, log, k);
            }
        }
    }
    Ok(Ghost(log))
}

} // verus!
