//! The loader's error taxonomy.  Every error is fatal: the caller is expected
//! to halt the boot.

use vstd::prelude::*;

verus! {

#[derive(Clone, Copy, Debug, PartialEq, Eq, Structural)]
pub enum LoadError {
    /// The physical base of the ELF image is not page-aligned.
    ImageNotAligned,
    /// The ELF header is missing or structurally unsound (magic, class,
    /// endianness, version, machine).
    BadHeader,
    /// The ELF type is neither `ET_EXEC` nor `ET_DYN`.
    UnsupportedElfType,
    /// The program-header table does not fit inside the image.
    BadProgramHeaderTable,
    /// A program header points outside the file or breaks the
    /// offset/address page-congruence the loader relies on.
    BadProgramHeader,
    /// A virtual address computed for a segment or the entry point does not
    /// fit in 64 bits.
    AddressOverflow,
    /// A `PT_DYNAMIC` segment holds more than one `DT_RELA` entry.
    MultipleRela,
    /// A `PT_DYNAMIC` segment holds more than one `DT_RELASZ` entry.
    MultipleRelaSize,
    /// A `PT_DYNAMIC` segment holds more than one `DT_RELAENT` entry.
    MultipleRelaEnt,
    /// `DT_RELASZ` or `DT_RELAENT` appeared without `DT_RELA`.
    StrayRelaInfo,
    /// `DT_RELA` appeared without `DT_RELASZ`.
    RelaSizeMissing,
    /// `DT_RELA` appeared without `DT_RELAENT`.
    RelaEntMissing,
    /// `DT_RELAENT` is zero.
    InvalidRelaEnt,
    /// The relocation table extends past the end of the image.
    RelaTableOutOfBounds,
    /// A relocation entry names a symbol-table entry.
    SymbolRelocationUnsupported,
    /// A relocation entry is not of type `R_X86_64_RELATIVE`.
    UnsupportedRelocationType,
    /// The target of a relocation lies in no `PT_LOAD` file range.
    RelocationDestinationUnmapped,
    /// The eight bytes written by a relocation would cross the image's end.
    RelocationOutOfBounds,
    /// `virtual_address_offset + addend` overflows.
    RelocationOverflow,
    /// More than one `PT_TLS` segment is present.
    MultipleTlsSegments,
    /// The frame allocator is exhausted.
    FrameAllocationFailed,
    /// Installing a mapping for a file-backed page was rejected.
    MapToFailed,
    /// Unmapping the split tail page of a segment was rejected.
    BssUnmapFailed,
    /// Remapping the split tail page onto its fresh frame was rejected.
    BssRemapFailed,
    /// Installing a mapping for a zeroed tail page was rejected.
    BssMapFailed,
}

} // verus!
