//! Structural facts of an ELF image: linkage, position independence, debug
//! metadata, and the file region behind a function's address range.

use vstd::prelude::*;
use crate::api_detection::{symbol_views, SymbolEntry, SymbolView};
use crate::error::Error;

verus! {

/// ELF type code of a shared object or position-independent executable.
pub const ET_DYN: u16 = 3;

/// One section header, with its name already looked up.
#[derive(Debug, Clone, PartialEq, Eq)]
pub struct SectionEntry {
    pub name: Option<String>,
    pub addr: u64,
    pub offset: u64,
    pub size: u64,
}

/// The load-time facts of an ELF image.
#[derive(Debug, Clone, PartialEq, Eq)]
pub struct ElfLayout {
    pub e_type: u16,
    pub has_interpreter: bool,
    pub sections: Vec<SectionEntry>,
}

/// The mathematical content of a [`SectionEntry`].
pub struct SectionView {
    pub name: Option<Seq<char>>,
    pub addr: u64,
    pub offset: u64,
    pub size: u64,
}

impl View for SectionEntry {
    type V = SectionView;

    open spec fn view(&self) -> SectionView {
        SectionView {
            name: match self.name {
                Some(text) => Some(text@),
                None => None,
            },
            addr: self.addr,
            offset: self.offset,
            size: self.size,
        }
    }
}

/// The views of a section table's entries, in order.
pub open spec fn section_views(sections: Seq<SectionEntry>) -> Seq<SectionView> {
    Seq::new(sections.len(), |i: int| sections[i]@)
}

/// The mathematical content of an [`ElfLayout`].
pub struct ElfLayoutView {
    pub e_type: u16,
    pub has_interpreter: bool,
    pub sections: Seq<SectionView>,
}

impl View for ElfLayout {
    type V = ElfLayoutView;

    open spec fn view(&self) -> ElfLayoutView {
        ElfLayoutView {
            e_type: self.e_type,
            has_interpreter: self.has_interpreter,
            sections: section_views(self.sections@),
        }
    }
}

/// Where a function's code lies in the file.
#[derive(Debug, Clone, Copy, PartialEq, Eq, Structural)]
pub struct CodeRegion {
    pub offset: u64,
    pub len: u64,
}

/// The layout that `goblin` reads from a file, or nothing where it cannot
/// parse it.
pub uninterp spec fn goblin_layout(data: Seq<u8>) -> Option<ElfLayoutView>;

/// The symbol table that `goblin` reads from a file, or nothing where it
/// cannot parse it.
pub uninterp spec fn goblin_symbols(data: Seq<u8>) -> Option<Seq<SymbolView>>;

/// Parses the file with `goblin::elf::Elf::parse` and copies the header's
/// type, whether an interpreter is named, and each section header with its
/// name. The contract only names the result.
#[verifier::external_body]
fn elf_layout(data: &[u8]) -> (layout: Option<ElfLayout>)
    ensures
        match layout {
            Some(l) => goblin_layout(data@) == Some(l@),
            None => goblin_layout(data@) is None,
        },
{
    let elf = goblin::elf::Elf::parse(data).ok()?;
    let sections = elf.section_headers.iter().map(|s| SectionEntry {
        name: elf.shdr_strtab.get_at(s.sh_name).map(|n| n.to_string()),
        addr: s.sh_addr,
        offset: s.sh_offset,
        size: s.sh_size,
    }).collect();
    Some(ElfLayout { e_type: elf.header.e_type, has_interpreter: elf.interpreter.is_some(), sections })
}

/// Parses the file with `goblin::elf::Elf::parse` and copies each entry of
/// the symbol table, with its name from the string table. The contract only
/// names the result.
#[verifier::external_body]
fn elf_symbols(data: &[u8]) -> (symbols: Option<Vec<SymbolEntry>>)
    ensures
        match symbols {
            Some(list) => goblin_symbols(data@) == Some(symbol_views(list@)),
            None => goblin_symbols(data@) is None,
        },
{
    let elf = goblin::elf::Elf::parse(data).ok()?;
    Some(elf.syms.iter().map(|s| SymbolEntry {
        info: s.st_info,
        shndx: s.st_shndx,
        value: s.st_value,
        size: s.st_size,
        name: elf.strtab.get_at(s.st_name).map(|n| n.to_string()),
    }).collect())
}

/// The layout of an ELF file.
pub fn read_layout(data: &[u8]) -> (layout: Result<ElfLayout, Error>)
    ensures
        match layout {
            Ok(l) => goblin_layout(data@) == Some(l@),
            Err(e) => e == Error::Load && goblin_layout(data@) is None,
        },
{
    match elf_layout(data) {
        Some(l) => Ok(l),
        None => Err(Error::Load),
    }
}

/// The symbol table of an ELF file.
pub fn read_symbols(data: &[u8]) -> (symbols: Result<Vec<SymbolEntry>, Error>)
    ensures
        match symbols {
            Ok(list) => goblin_symbols(data@) == Some(symbol_views(list@)),
            Err(e) => e == Error::Load && goblin_symbols(data@) is None,
        },
{
    match elf_symbols(data) {
        Some(list) => Ok(list),
        None => Err(Error::Load),
    }
}

/// The section carries the name `name`.
pub open spec fn section_named(section: SectionView, name: Seq<char>) -> bool {
    section.name == Some(name)
}

/// The image holds no section of debug information.
pub open spec fn stripped(layout: ElfLayoutView) -> bool {
    forall|j: int|
        0 <= j < layout.sections.len() ==> !section_named(
            #[trigger] layout.sections[j],
            ".debug_info"@,
        )
}

/// Stripped: the image holds no section of debug information.
pub fn is_stripped(layout: &ElfLayout) -> (answer: bool)
    ensures
        answer == stripped(layout@),
{
    let wanted = ".debug_info".to_owned();
    let mut i: usize = 0;
    while i < layout.sections.len()
        invariant
            i <= layout.sections.len(),
            wanted@ == ".debug_info"@,
            forall|j: int|
                0 <= j < i ==> !section_named(#[trigger] layout@.sections[j], ".debug_info"@),
        decreases layout.sections.len() - i,
    {
        match &layout.sections[i].name {
            Some(text) => {
                if *text == wanted {
                    assert(section_named(layout@.sections[i as int], ".debug_info"@));
                    return false;
                }
            },
            None => {},
        }
        i += 1;
    }
    true
}

/// Statically linked: the image names no program interpreter.
pub fn is_static(layout: &ElfLayout) -> (answer: bool)
    ensures
        answer == !layout.has_interpreter,
{
    !layout.has_interpreter
}

/// Position independent: the image is of the shared-object type.
pub fn is_pie(layout: &ElfLayout) -> (answer: bool)
    ensures
        answer == (layout.e_type == ET_DYN),
{
    layout.e_type == ET_DYN
}

/// The section maps the whole range `[start, end)`, and the range's file
/// offsets are representable.
pub open spec fn section_maps(section: SectionView, start: u64, end: u64) -> bool {
    &&& section.addr <= start <= end
    &&& end <= section.addr + section.size
    &&& section.offset + (end - section.addr) <= u64::MAX
}

/// Section `k` is the first that maps the range.
pub open spec fn first_mapping(sections: Seq<SectionView>, start: u64, end: u64, k: int) -> bool {
    &&& 0 <= k < sections.len()
    &&& section_maps(sections[k], start, end)
    &&& forall|j: int| 0 <= j < k ==> !section_maps(#[trigger] sections[j], start, end)
}

/// The file region of the address range `[start, end)`: its offset in the
/// first section that maps it. A range that no section maps is an error.
pub fn code_region(sections: &Vec<SectionEntry>, start: u64, end: u64) -> (region: Result<
    CodeRegion,
    Error,
>)
    ensures
        match region {
            Ok(r) => exists|k: int| #[trigger]
                first_mapping(section_views(sections@), start, end, k) && r.offset
                    == sections@[k].offset + (start - sections@[k].addr) && r.len == end - start,
            Err(e) => e == Error::Region && forall|k: int|
                0 <= k < sections@.len() ==> !section_maps(
                    #[trigger] section_views(sections@)[k],
                    start,
                    end,
                ),
        },
{
    let mut i: usize = 0;
    while i < sections.len()
        invariant
            i <= sections.len(),
            forall|j: int|
                0 <= j < i ==> !section_maps(#[trigger] section_views(sections@)[j], start, end),
        decreases sections.len() - i,
    {
        let section = &sections[i];
        if section.addr <= start && start <= end && end - section.addr <= section.size {
            match section.offset.checked_add(end - section.addr) {
                Some(_) => {
                    let region = CodeRegion {
                        offset: section.offset + (start - section.addr),
                        len: end - start,
                    };
                    assert(first_mapping(section_views(sections@), start, end, i as int));
                    return Ok(region);
                },
                None => {},
            }
        }
        i += 1;
    }
    Err(Error::Region)
}

/// The bytes of a file region: the machine code of the function it was
/// resolved for. A region that the file does not wholly hold is an error.
pub fn region_bytes(data: &[u8], region: CodeRegion) -> (bytes: Result<Vec<u8>, Error>)
    ensures
        match bytes {
            Ok(code) => region.offset + region.len <= data@.len() && code@ == data@.subrange(
                region.offset as int,
                region.offset + region.len,
            ),
            Err(e) => e == Error::Region && region.offset + region.len > data@.len(),
        },
{
    let held = data.len();
    let size = held as u64;
    if region.offset > size || region.len > size - region.offset {
        return Err(Error::Region);
    }
    let first = region.offset as usize;
    let count = region.len as usize;
    let mut code: Vec<u8> = Vec::new();
    let mut i: usize = 0;
    while i < count
        invariant
            i <= count,
            first + count <= data@.len() == held,
            code@ == data@.subrange(first as int, first + i),
        decreases count - i,
    {
        code.push(data[first + i]);
        proof {
            assert(code@ =~= data@.subrange(first as int, first + i + 1));
        }
        i += 1;
    }
    Ok(code)
}

} // verus!
