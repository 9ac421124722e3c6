//! The ELF64 view of the kernel image: header parsing and structural sanity,
//! the program-header table, and the virtual-address-to-file-offset search
//! used by the relocator.

use vstd::prelude::*;
use crate::bytes::{le16_at, le32_at, le64_at, read_u16, read_u32, read_u64};
use crate::errors::LoadError;

verus! {

pub const PT_LOAD: u32 = 1;
pub const PT_DYNAMIC: u32 = 2;
pub const PT_TLS: u32 = 7;
pub const ET_EXEC: u16 = 2;
pub const ET_DYN: u16 = 3;
pub const EM_X86_64: u16 = 62;

/// Fixed base a position-independent kernel is displaced to.
pub const PIE_OFFSET: u64 = 0x400000;

/// The fields of the ELF64 header the loader consumes.
#[derive(Clone, Copy, Debug, PartialEq, Eq, Structural)]
pub struct ElfHeader {
    pub etype: u16,
    pub entry: u64,
    pub phoff: u64,
    pub phentsize: u16,
    pub phnum: u16,
}

/// The fields of one ELF64 program header the loader consumes.
#[derive(Clone, Copy, Debug, PartialEq, Eq, Structural)]
pub struct Phdr {
    pub ptype: u32,
    pub flags: u32,
    pub offset: u64,
    pub vaddr: u64,
    pub filesz: u64,
    pub memsz: u64,
}

/// Structural sanity of the ELF header: magic, 64-bit class, little
/// endianness, version, x86-64 machine.
pub open spec fn header_structure_ok(img: Seq<u8>) -> bool {
    &&& img.len() >= 64
    &&& img[0] == 0x7fu8
    &&& img[1] == 0x45u8
    &&& img[2] == 0x4cu8
    &&& img[3] == 0x46u8
    &&& img[4] == 2u8
    &&& img[5] == 1u8
    &&& img[6] == 1u8
    &&& le16_at(img, 18) == EM_X86_64
    &&& le32_at(img, 20) == 1u32
}

/// The header fields as stored in the image.
pub open spec fn spec_header(img: Seq<u8>) -> ElfHeader {
    ElfHeader {
        etype: le16_at(img, 16),
        entry: le64_at(img, 24),
        phoff: le64_at(img, 32),
        phentsize: le16_at(img, 54),
        phnum: le16_at(img, 56),
    }
}

/// Displacement added to every ELF virtual address, chosen by ELF type.
pub open spec fn spec_voff(etype: u16) -> u64 {
    if etype == ET_EXEC {
        0
    } else {
        PIE_OFFSET
    }
}

/// The program header stored at byte offset `base`.
pub open spec fn spec_phdr_at(img: Seq<u8>, base: int) -> Phdr {
    Phdr {
        ptype: le32_at(img, base),
        flags: le32_at(img, base + 4),
        offset: le64_at(img, base + 8),
        vaddr: le64_at(img, base + 16),
        filesz: le64_at(img, base + 32),
        memsz: le64_at(img, base + 40),
    }
}

/// The whole program-header table described by `h`.
pub open spec fn spec_phdrs(img: Seq<u8>, h: ElfHeader) -> Seq<Phdr> {
    Seq::new(h.phnum as nat, |i: int| spec_phdr_at(img, h.phoff + i * h.phentsize))
}

/// The program-header table fits inside the image and uses a plausible
/// entry stride.
pub open spec fn phdr_table_ok(img: Seq<u8>, h: ElfHeader) -> bool {
    &&& h.phentsize >= 56
    &&& h.phoff + h.phnum * h.phentsize <= img.len()
}

/// Parse and sanity-check the ELF header, rejecting unsupported ELF types.
pub fn parse_header(img: &Vec<u8>) -> (r: Result<ElfHeader, LoadError>)
    ensures
        r matches Ok(h) ==> {
            &&& header_structure_ok(img@)
            &&& h == spec_header(img@)
            &&& (h.etype == ET_EXEC || h.etype == ET_DYN)
        },
        r is Err ==> !(header_structure_ok(img@) && (spec_header(img@).etype == ET_EXEC
            || spec_header(img@).etype == ET_DYN)),
        r matches Err(e) ==> (e == LoadError::BadHeader || e == LoadError::UnsupportedElfType),
{
    if img.len() < 64 {
        return Err(LoadError::BadHeader);
    }
    if !(img[0] == 0x7f && img[1] == 0x45 && img[2] == 0x4c && img[3] == 0x46) {
        return Err(LoadError::BadHeader);
    }
    if !(img[4] == 2 && img[5] == 1 && img[6] == 1) {
        return Err(LoadError::BadHeader);
    }
    if read_u16(img, 18) != EM_X86_64 || read_u32(img, 20) != 1 {
        return Err(LoadError::BadHeader);
    }
    let etype = read_u16(img, 16);
    if etype != ET_EXEC && etype != ET_DYN {
        return Err(LoadError::UnsupportedElfType);
    }
    Ok(ElfHeader {
        etype,
        entry: read_u64(img, 24),
        phoff: read_u64(img, 32),
        phentsize: read_u16(img, 54),
        phnum: read_u16(img, 56),
    })
}

/// Read the program-header table described by `h`.
pub fn parse_phdrs(img: &Vec<u8>, h: &ElfHeader) -> (r: Result<Vec<Phdr>, LoadError>)
    requires
        *h == spec_header(img@),
    ensures
        r is Ok <==> phdr_table_ok(img@, *h),
        r matches Ok(v) ==> v@ == spec_phdrs(img@, *h),
        r matches Err(e) ==> e == LoadError::BadProgramHeaderTable,
{
    if h.phentsize < 56 {
        return Err(LoadError::BadProgramHeaderTable);
    }
    let pn: u64 = h.phnum as u64;
    let pe: u64 = h.phentsize as u64;
    proof {
        assert(pn * pe <= 0xffff * 0xffff) by (nonlinear_arith)
            requires pn <= 0xffff && pe <= 0xffff;
    }
    let need: u64 = pn * pe;
    let len: u64 = img.len() as u64;
    if need > len || h.phoff > len - need {
        return Err(LoadError::BadProgramHeaderTable);
    }
    let mut v: Vec<Phdr> = Vec::new();
    let mut i: usize = 0;
    let n = h.phnum as usize;
    proof {
        assert(img@.len() <= usize::MAX);
    }
    while i < n
        invariant
            img@.len() <= usize::MAX,
            *h == spec_header(img@),
            phdr_table_ok(img@, *h),
            n == h.phnum,
            i <= n,
            v@.len() == i,
            img@.len() <= u64::MAX,
            forall|j: int| 0 <= j < i ==> v@[j]
                == spec_phdr_at(img@, h.phoff + j * h.phentsize),
        decreases n - i,
    {
        proof {
            assert(i * h.phentsize + 56 <= h.phnum * h.phentsize) by (nonlinear_arith)
                requires i + 1 <= h.phnum && h.phentsize >= 56;
        }
        let base64: u64 = h.phoff + (i as u64) * (h.phentsize as u64);
        proof {
            assert(base64 + 56 <= img@.len());
        }
        let base: usize = base64 as usize;
        let ph = Phdr {
            ptype: read_u32(img, base),
            flags: read_u32(img, base + 4),
            offset: read_u64(img, base + 8),
            vaddr: read_u64(img, base + 16),
            filesz: read_u64(img, base + 32),
            memsz: read_u64(img, base + 40),
        };
        v.push(ph);
        i += 1;
    }
    proof {
        assert(v@ =~= spec_phdrs(img@, *h));
    }
    Ok(v)
}

/// Per-header sanity: segments the loader consumes must lie inside the
/// file, their displaced virtual ranges must fit in 64 bits, and a
/// loadable segment's file offset and virtual address must agree modulo
/// the page size (the standard ELF congruence the mapping relies on).
pub open spec fn phdr_ok(ph: Phdr, voff: u64, img_len: int) -> bool {
    &&& (ph.ptype == PT_LOAD ==> {
        &&& ph.offset + ph.filesz <= img_len
        &&& ph.vaddr + voff + ph.filesz <= u64::MAX
        &&& ph.vaddr + voff + ph.memsz <= u64::MAX
        &&& ph.offset % 4096 == ph.vaddr % 4096
    })
    &&& (ph.ptype == PT_DYNAMIC ==> ph.offset + ph.filesz <= img_len)
    &&& (ph.ptype == PT_TLS ==> ph.vaddr + voff <= u64::MAX)
}

/// All headers pass `phdr_ok`.
pub open spec fn phdrs_ok(phs: Seq<Phdr>, voff: u64, img_len: int) -> bool {
    forall|i: int| 0 <= i < phs.len() ==> #[trigger] phdr_ok(phs[i], voff, img_len)
}

/// Check every program header, as the loader's first pass does.
pub fn check_phdrs(phs: &Vec<Phdr>, voff: u64, img_len: u64) -> (r: Result<(), LoadError>)
    ensures
        r is Ok <==> phdrs_ok(phs@, voff, img_len as int),
        r matches Err(e) ==> (e == LoadError::BadProgramHeader
            || e == LoadError::AddressOverflow),
{
    let n = phs.len();
    let mut i: usize = 0;
    while i < n
        invariant
            n == phs@.len(),
            i <= n,
            forall|j: int| 0 <= j < i ==> #[trigger] phdr_ok(phs@[j], voff, img_len as int),
        decreases n - i,
    {
        let ph = phs[i];
        if ph.ptype == PT_LOAD {
            if ph.filesz > img_len || ph.offset > img_len - ph.filesz {
                assert(!phdr_ok(phs@[i as int], voff, img_len as int));
                return Err(LoadError::BadProgramHeader);
            }
            if voff > u64::MAX - ph.vaddr {
                assert(!phdr_ok(phs@[i as int], voff, img_len as int));
                return Err(LoadError::AddressOverflow);
            }
            let vstart = ph.vaddr + voff;
            if ph.filesz > u64::MAX - vstart || ph.memsz > u64::MAX - vstart {
                assert(!phdr_ok(phs@[i as int], voff, img_len as int));
                return Err(LoadError::AddressOverflow);
            }
            if ph.offset % 4096 != ph.vaddr % 4096 {
                assert(!phdr_ok(phs@[i as int], voff, img_len as int));
                return Err(LoadError::BadProgramHeader);
            }
        } else if ph.ptype == PT_DYNAMIC {
            if ph.filesz > img_len || ph.offset > img_len - ph.filesz {
                assert(!phdr_ok(phs@[i as int], voff, img_len as int));
                return Err(LoadError::BadProgramHeader);
            }
        } else if ph.ptype == PT_TLS {
            if voff > u64::MAX - ph.vaddr {
                assert(!phdr_ok(phs@[i as int], voff, img_len as int));
                return Err(LoadError::AddressOverflow);
            }
        }
        assert(phdr_ok(phs@[i as int], voff, img_len as int));
        i += 1;
    }
    Ok(())
}

/// The file offset backing virtual address `va`: the first `PT_LOAD` whose
/// file-backed range contains `va` decides.
pub open spec fn spec_find_offset(phs: Seq<Phdr>, va: u64) -> Option<u64>
    decreases phs.len(),
{
    if phs.len() == 0 {
        None
    } else if phs[0].ptype == PT_LOAD && phs[0].vaddr <= va && va - phs[0].vaddr
        < phs[0].filesz {
        Some((phs[0].offset + (va - phs[0].vaddr)) as u64)
    } else {
        spec_find_offset(phs.drop_first(), va)
    }
}

/// A found offset lies inside the file range of a sane table.
pub proof fn lemma_find_offset_in_bounds(phs: Seq<Phdr>, va: u64, voff: u64, img_len: int)
    requires
        phdrs_ok(phs, voff, img_len),
        spec_find_offset(phs, va) is Some,
    ensures
        spec_find_offset(phs, va).unwrap() < img_len,
    decreases phs.len(),
{
    if phs.len() > 0 {
        if phs[0].ptype == PT_LOAD && phs[0].vaddr <= va && va - phs[0].vaddr
            < phs[0].filesz {
            assert(phdr_ok(phs[0], voff, img_len));
        } else {
            assert forall|i: int| 0 <= i < phs.drop_first().len() implies
                #[trigger] phdr_ok(phs.drop_first()[i], voff, img_len) by {
                assert(phs.drop_first()[i] == phs[i + 1]);
                assert(phdr_ok(phs[i + 1], voff, img_len));
            }
            lemma_find_offset_in_bounds(phs.drop_first(), va, voff, img_len);
        }
    }
}

/// Locate the file offset corresponding to a virtual address named by a
/// relocation.
pub fn find_offset(phs: &Vec<Phdr>, va: u64) -> (r: Option<u64>)
    requires
        forall|i: int| 0 <= i < phs@.len() && phs@[i].ptype == PT_LOAD
            ==> (#[trigger] phs@[i]).offset + phs@[i].filesz <= u64::MAX,
    ensures
        r == spec_find_offset(phs@, va),
{
    let n = phs.len();
    let mut i: usize = 0;
    proof {
        assert(phs@.skip(0) =~= phs@);
    }
    while i < n
        invariant
            n == phs@.len(),
            i <= n,
            forall|j: int| 0 <= j < phs@.len() && phs@[j].ptype == PT_LOAD
                ==> (#[trigger] phs@[j]).offset + phs@[j].filesz <= u64::MAX,
            spec_find_offset(phs@, va) == spec_find_offset(phs@.skip(i as int), va),
        decreases n - i,
    {
        let ph = phs[i];
        proof {
            assert(phs@.skip(i as int)[0] == phs@[i as int]);
            assert(phs@.skip(i as int).drop_first() =~= phs@.skip(i as int + 1));
        }
        if ph.ptype == PT_LOAD && ph.vaddr <= va {
            let off_in_seg = va - ph.vaddr;
            if off_in_seg < ph.filesz {
                return Some(ph.offset + off_in_seg);
            }
        }
        i += 1;
    }
    proof {
        assert(phs@.skip(n as int).len() == 0);
    }
    None
}

} // verus!
