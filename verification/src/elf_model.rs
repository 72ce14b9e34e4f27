//! What an ELF image says: the meaning of each table of the format, given as
//! functions of the file's bytes.

use crate::elf::{
    Binding, Class, ElfError, Endian, Section, Segment, SymbolType, SymbolVersion, DT_NEEDED,
    DT_NULL, DT_RPATH, DT_RUNPATH, DT_SONAME, ET_DYN, ET_EXEC, PT_INTERP, SHF_ALLOC, SHF_EXECINSTR,
    SHF_WRITE, SHT_DYNAMIC, SHT_DYNSYM, SHT_GNU_VERDEF, SHT_GNU_VERNEED, SHT_GNU_VERSYM, SHT_NOBITS,
    SHT_PROGBITS,
};
use crate::order::in_order;
use crate::text::{ascii, decoded};
use vstd::prelude::*;

verus! {

/// A section with its name as text.
pub struct SectionModel {
    pub name: Seq<char>,
    pub kind: u32,
    pub flags: u64,
    pub addr: u64,
    pub offset: u64,
    pub size: u64,
    pub link: u32,
    pub info: u32,
    pub entsize: u64,
}

/// A symbol version with its names as text.
pub struct VersionModel {
    pub name: Seq<char>,
    pub file: Option<Seq<char>>,
    pub hidden: bool,
}

/// A dynamic symbol with its names as text.
pub struct SymbolModel {
    pub name: Seq<char>,
    pub binding: Binding,
    pub kind: SymbolType,
    pub section_index: u16,
    pub value: u64,
    pub size: u64,
    pub version: Option<VersionModel>,
}

/// A parsed file with all its strings as text.
pub struct ElfModel {
    pub class: Class,
    pub endian: Endian,
    pub file_type: u16,
    pub machine: u16,
    pub interpreter: Option<Seq<char>>,
    pub segments: Seq<Segment>,
    pub sections: Seq<SectionModel>,
    pub needed: Seq<Seq<char>>,
    pub soname: Option<Seq<char>>,
    pub rpath: Option<Seq<char>>,
    pub runpath: Option<Seq<char>>,
    pub symbols: Seq<SymbolModel>,
    pub rodata_strings: Seq<Seq<char>>,
}

impl SymbolModel {
    pub open spec fn is_undefined(self) -> bool {
        self.section_index == 0
    }

    /// A symbol that the object expects from elsewhere, by name.
    pub open spec fn is_import(self) -> bool {
        self.is_undefined() && self.name.len() > 0
    }
}

impl ElfModel {
    /// What the dynamic linker can be started on.
    pub open spec fn is_executable(self) -> bool {
        self.file_type == ET_EXEC || (self.file_type == ET_DYN && exists|i: int|
            0 <= i < self.segments.len() && (#[trigger] self.segments[i]).kind == PT_INTERP)
    }

    /// The symbols that the object expects from elsewhere, in table order.
    pub open spec fn imports(self) -> Seq<SymbolModel> {
        self.symbols.filter(|s: SymbolModel| s.is_import())
    }
}

/// The text of an optional string.
pub open spec fn text_of(s: Option<String>) -> Option<Seq<char>> {
    match s {
        Some(t) => Some(t@),
        None => None,
    }
}

/// The text of a string that may have failed to be read.
pub open spec fn text_result(r: Result<String, ElfError>) -> Result<Seq<char>, ElfError> {
    match r {
        Ok(t) => Ok(t@),
        Err(e) => Err(e),
    }
}

/// The bytes of a slice that may have failed to be read.
pub open spec fn bytes_of(r: Result<&[u8], ElfError>) -> Result<Seq<u8>, ElfError> {
    match r {
        Ok(b) => Ok(b@),
        Err(e) => Err(e),
    }
}

/// A section header that may have failed to be read.
pub open spec fn header_result(r: Result<(u32, Section), ElfError>) -> Result<
    (u32, SectionModel),
    ElfError,
> {
    match r {
        Ok((name, s)) => Ok((name, s@)),
        Err(e) => Err(e),
    }
}

/// A table of sections that have no names yet.
pub open spec fn raw_views(raw: Seq<(u32, Section)>) -> Seq<(u32, SectionModel)> {
    raw.map_values(|p: (u32, Section)| (p.0, p.1@))
}

/// A section that may be missing.
pub open spec fn section_view(s: Option<Section>) -> Option<SectionModel> {
    match s {
        Some(s) => Some(s@),
        None => None,
    }
}

/// A symbol version that may be missing.
pub open spec fn version_view(v: Option<SymbolVersion>) -> Option<VersionModel> {
    match v {
        Some(v) => Some(v@),
        None => None,
    }
}

/// Bytes of `.gnu.version`, which may be missing.
pub open spec fn versym_view(v: Option<&[u8]>) -> Option<Seq<u8>> {
    match v {
        Some(b) => Some(b@),
        None => None,
    }
}

/// The number that bytes spell, least significant byte first.
pub open spec fn little(b: Seq<u8>) -> nat
    decreases b.len(),
{
    if b.len() == 0 {
        0
    } else {
        b[0] as nat + 256 * little(b.drop_first())
    }
}

/// The number that bytes spell, most significant byte first.
pub open spec fn big(b: Seq<u8>) -> nat
    decreases b.len(),
{
    if b.len() == 0 {
        0
    } else {
        256 * big(b.drop_last()) + b.last() as nat
    }
}

/// The number that bytes spell in the given byte order.
pub open spec fn number(b: Seq<u8>, endian: Endian) -> nat {
    match endian {
        Endian::Little => little(b),
        Endian::Big => big(b),
    }
}

/// Bytes together with how to read numbers out of them.
pub struct Image {
    pub data: Seq<u8>,
    pub class: Class,
    pub endian: Endian,
}

impl Image {
    /// The same reading of other bytes.
    pub open spec fn over(self, data: Seq<u8>) -> Image {
        Image { data, class: self.class, endian: self.endian }
    }

    pub open spec fn word_size(self) -> u64 {
        match self.class {
            Class::Elf32 => 4,
            Class::Elf64 => 8,
        }
    }

    pub open spec fn fits(self, offset: int, len: int) -> bool {
        offset + len <= self.data.len()
    }

    /// The number in `len` bytes at an offset.
    pub open spec fn field(self, offset: int, len: int) -> nat {
        number(self.data.subrange(offset, offset + len), self.endian)
    }

    pub open spec fn word_field(self, offset: int) -> u64 {
        self.field(offset, self.word_size() as int) as u64
    }

    pub open spec fn bytes(self, offset: u64, len: u64, what: &'static str) -> Result<
        Seq<u8>,
        ElfError,
    > {
        if self.fits(offset as int, len as int) {
            Ok(self.data.subrange(offset as int, offset + len))
        } else {
            Err(ElfError::Truncated { what, offset, len })
        }
    }

    pub open spec fn u8_at(self, offset: u64, what: &'static str) -> Result<u8, ElfError> {
        if self.fits(offset as int, 1) {
            Ok(self.data[offset as int])
        } else {
            Err(ElfError::Truncated { what, offset, len: 1 })
        }
    }

    pub open spec fn u16_at(self, offset: u64, what: &'static str) -> Result<u16, ElfError> {
        if self.fits(offset as int, 2) {
            Ok(self.field(offset as int, 2) as u16)
        } else {
            Err(ElfError::Truncated { what, offset, len: 2 })
        }
    }

    pub open spec fn u32_at(self, offset: u64, what: &'static str) -> Result<u32, ElfError> {
        if self.fits(offset as int, 4) {
            Ok(self.field(offset as int, 4) as u32)
        } else {
            Err(ElfError::Truncated { what, offset, len: 4 })
        }
    }

    pub open spec fn u64_at(self, offset: u64, what: &'static str) -> Result<u64, ElfError> {
        if self.fits(offset as int, 8) {
            Ok(self.field(offset as int, 8) as u64)
        } else {
            Err(ElfError::Truncated { what, offset, len: 8 })
        }
    }

    /// An address-sized field: 4 bytes in ELF32, 8 in ELF64.
    pub open spec fn word_at(self, offset: u64, what: &'static str) -> Result<u64, ElfError> {
        if self.fits(offset as int, self.word_size() as int) {
            Ok(self.word_field(offset as int))
        } else {
            Err(ElfError::Truncated { what, offset, len: self.word_size() })
        }
    }
}

/// A sum of offsets, which must stay within 64 bits.
pub open spec fn sum(a: u64, b: u64, what: &'static str) -> Result<u64, ElfError> {
    if a + b <= u64::MAX {
        Ok((a + b) as u64)
    } else {
        Err(ElfError::Truncated { what, offset: a, len: b })
    }
}

/// The size of a table, which must stay within 64 bits.
pub open spec fn product(a: u64, b: u64, what: &'static str) -> Result<u64, ElfError> {
    if a * b <= u64::MAX {
        Ok((a * b) as u64)
    } else {
        Err(ElfError::Truncated { what, offset: a, len: b })
    }
}

/// A 4-byte field of the record at `off`.
pub open spec fn u32_in(img: Image, off: u64, delta: u64, what: &'static str) -> Result<
    u32,
    ElfError,
> {
    match sum(off, delta, what) {
        Err(e) => Err(e),
        Ok(p) => img.u32_at(p, what),
    }
}

/// A 2-byte field of the record at `off`.
pub open spec fn u16_in(img: Image, off: u64, delta: u64, what: &'static str) -> Result<
    u16,
    ElfError,
> {
    match sum(off, delta, what) {
        Err(e) => Err(e),
        Ok(p) => img.u16_at(p, what),
    }
}

/// An address-sized field of the record at `off`.
pub open spec fn word_in(img: Image, off: u64, delta: u64, what: &'static str) -> Result<
    u64,
    ElfError,
> {
    match sum(off, delta, what) {
        Err(e) => Err(e),
        Ok(p) => img.word_at(p, what),
    }
}

/// The first NUL at or after `start`, or the length of the table.
pub open spec fn nul_from(table: Seq<u8>, start: int) -> int
    decreases table.len() - start,
{
    if start >= table.len() || table[start] == 0 {
        start
    } else {
        nul_from(table, start + 1)
    }
}

/// The NUL-terminated string at an offset of a string table.
pub open spec fn cstring(table: Seq<u8>, offset: u32, what: &'static str) -> Result<
    Seq<char>,
    ElfError,
> {
    if nul_from(table, offset as int) < table.len() {
        Ok(decoded(table.subrange(offset as int, nul_from(table, offset as int))))
    } else {
        Err(ElfError::UnterminatedString { what, offset: offset as u64 })
    }
}

/// The fixed-size fields that follow the identification bytes.
pub struct Header {
    pub file_type: u16,
    pub machine: u16,
    pub phoff: u64,
    pub shoff: u64,
    pub phentsize: u64,
    pub phnum: u16,
    pub shentsize: u64,
    pub shnum: u16,
    pub shstrndx: u16,
}

pub open spec fn header_size(img: Image) -> u64 {
    match img.class {
        Class::Elf32 => 52,
        Class::Elf64 => 64,
    }
}

pub open spec fn header(img: Image) -> Header {
    let w = img.word_size() as int;
    Header {
        file_type: img.field(16, 2) as u16,
        machine: img.field(18, 2) as u16,
        phoff: img.word_field(24 + w),
        shoff: img.word_field(24 + 2 * w),
        phentsize: img.field(30 + 3 * w, 2) as u16 as u64,
        phnum: img.field(32 + 3 * w, 2) as u16,
        shentsize: img.field(34 + 3 * w, 2) as u16 as u64,
        shnum: img.field(36 + 3 * w, 2) as u16,
        shstrndx: img.field(38 + 3 * w, 2) as u16,
    }
}

pub open spec fn section_header_size(img: Image) -> u64 {
    (16 + 6 * img.word_size()) as u64
}

pub open spec fn program_header_size(img: Image) -> u64 {
    match img.class {
        Class::Elf32 => 32,
        Class::Elf64 => 56,
    }
}

/// A section header: the offset of its name, and the section without a name.
pub open spec fn section_header(img: Image, off: u64) -> Result<(u32, SectionModel), ElfError> {
    let w = img.word_size();
    match img.u32_at(off, "sh_name") {
        Err(e) => Err(e),
        Ok(name) => match u32_in(img, off, 4, "sh_type") {
            Err(e) => Err(e),
            Ok(kind) => match word_in(img, off, 8, "sh_flags") {
                Err(e) => Err(e),
                Ok(flags) => match word_in(img, off, (8 + w) as u64, "sh_addr") {
                    Err(e) => Err(e),
                    Ok(addr) => match word_in(img, off, (8 + 2 * w) as u64, "sh_offset") {
                        Err(e) => Err(e),
                        Ok(offset) => match word_in(img, off, (8 + 3 * w) as u64, "sh_size") {
                            Err(e) => Err(e),
                            Ok(size) => match u32_in(img, off, (8 + 4 * w) as u64, "sh_link") {
                                Err(e) => Err(e),
                                Ok(link) => match u32_in(
                                    img,
                                    off,
                                    (12 + 4 * w) as u64,
                                    "sh_info",
                                ) {
                                    Err(e) => Err(e),
                                    Ok(info) => match word_in(
                                        img,
                                        off,
                                        (16 + 5 * w) as u64,
                                        "sh_entsize",
                                    ) {
                                        Err(e) => Err(e),
                                        Ok(entsize) => Ok(
                                            (
                                                name,
                                                SectionModel {
                                                    name: Seq::empty(),
                                                    kind,
                                                    flags,
                                                    addr,
                                                    offset,
                                                    size,
                                                    link,
                                                    info,
                                                    entsize,
                                                },
                                            ),
                                        ),
                                    },
                                },
                            },
                        },
                    },
                },
            },
        },
    }
}

/// A program header that lies within the file.
pub open spec fn program_header(img: Image, off: int) -> Segment {
    match img.class {
        Class::Elf32 => Segment {
            kind: img.field(off, 4) as u32,
            offset: img.field(off + 4, 4) as u32 as u64,
            vaddr: img.field(off + 8, 4) as u32 as u64,
            filesz: img.field(off + 16, 4) as u32 as u64,
            memsz: img.field(off + 20, 4) as u32 as u64,
            flags: img.field(off + 24, 4) as u32,
        },
        Class::Elf64 => Segment {
            kind: img.field(off, 4) as u32,
            flags: img.field(off + 4, 4) as u32,
            offset: img.field(off + 8, 8) as u64,
            vaddr: img.field(off + 16, 8) as u64,
            filesz: img.field(off + 32, 8) as u64,
            memsz: img.field(off + 40, 8) as u64,
        },
    }
}

/// The section header table, still without names. With 0xff00 sections or more
/// the real count lives in the size field of section 0.
pub open spec fn raw_sections(img: Image) -> Result<Seq<(u32, SectionModel)>, ElfError> {
    let h = header(img);
    if h.shoff == 0 {
        Ok(Seq::empty())
    } else if h.shentsize < section_header_size(img) {
        Err(ElfError::BadEntrySize { what: "section header", size: h.shentsize })
    } else {
        match section_header(img, h.shoff) {
            Err(e) => Err(e),
            Ok((_, zero)) => {
                let count = if h.shnum == 0 {
                    zero.size
                } else {
                    h.shnum as u64
                };
                match product(count, h.shentsize, "section header table") {
                    Err(e) => Err(e),
                    Ok(len) => match img.bytes(h.shoff, len, "section header table") {
                        Err(e) => Err(e),
                        Ok(_) => Ok(
                            Seq::new(
                                count as nat,
                                |i: int| section_header(img, (h.shoff + i * h.shentsize) as u64)->Ok_0,
                            ),
                        ),
                    },
                }
            },
        }
    }
}

/// Section 0, which holds counts that do not fit the file header.
pub open spec fn section_zero(img: Image) -> Option<SectionModel> {
    if header(img).shoff == 0 {
        None
    } else {
        Some(section_header(img, header(img).shoff)->Ok_0.1)
    }
}

/// The number of program headers.
pub open spec fn segment_count(img: Image) -> u64 {
    if header(img).phnum == 0xffff {
        match section_zero(img) {
            Some(zero) => zero.info as u64,
            None => 0,
        }
    } else {
        header(img).phnum as u64
    }
}

pub open spec fn segments(img: Image) -> Result<Seq<Segment>, ElfError> {
    let h = header(img);
    let count = segment_count(img);
    if count == 0 || h.phoff == 0 {
        Ok(Seq::empty())
    } else if h.phentsize < program_header_size(img) {
        Err(ElfError::BadEntrySize { what: "program header", size: h.phentsize })
    } else {
        match product(count, h.phentsize, "program header table") {
            Err(e) => Err(e),
            Ok(len) => match img.bytes(h.phoff, len, "program header table") {
                Err(e) => Err(e),
                Ok(_) => Ok(
                    Seq::new(
                        count as nat,
                        |i: int| program_header(img, h.phoff + i * h.phentsize),
                    ),
                ),
            },
        }
    }
}

/// The bytes of a section; `SHT_NOBITS` sections occupy none.
pub open spec fn section_data(img: Image, s: SectionModel, what: &'static str) -> Result<
    Seq<u8>,
    ElfError,
> {
    if s.kind == SHT_NOBITS {
        Ok(Seq::empty())
    } else {
        img.bytes(s.offset, s.size, what)
    }
}

/// The section with the given index.
pub open spec fn section_at(sections: Seq<SectionModel>, index: u64, what: &'static str) -> Result<
    SectionModel,
    ElfError,
> {
    if index < sections.len() {
        Ok(sections[index as int])
    } else {
        Err(ElfError::BadSectionIndex { what, index })
    }
}

/// The index of the section name table; 0 when there is none.
pub open spec fn name_table_index(img: Image) -> u64 {
    if header(img).shstrndx == 0xffff {
        match section_zero(img) {
            Some(zero) => zero.link as u64,
            None => 0,
        }
    } else {
        header(img).shstrndx as u64
    }
}

/// Names the sections from the `i`th on, out of the name table.
pub open spec fn named_from(
    names: Seq<u8>,
    raw: Seq<(u32, SectionModel)>,
    i: int,
    done: Seq<SectionModel>,
) -> Result<Seq<SectionModel>, ElfError>
    decreases raw.len() - i,
{
    if i >= raw.len() {
        Ok(done)
    } else {
        match cstring(names, raw[i].0, "section name") {
            Err(e) => Err(e),
            Ok(name) => named_from(names, raw, i + 1, done.push(SectionModel { name, ..raw[i].1 })),
        }
    }
}

/// The section table with its names.
pub open spec fn named_sections(img: Image, raw: Seq<(u32, SectionModel)>) -> Result<
    Seq<SectionModel>,
    ElfError,
> {
    let index = name_table_index(img);
    let bare = raw.map_values(|p: (u32, SectionModel)| p.1);
    if raw.len() == 0 || index == 0 {
        Ok(bare)
    } else {
        match section_at(bare, index, "e_shstrndx") {
            Err(e) => Err(e),
            Ok(s) => match section_data(img, s, "section name table") {
                Err(e) => Err(e),
                Ok(names) => named_from(names, raw, 0, Seq::empty()),
            },
        }
    }
}

/// The first program header of a kind, from the `i`th on.
pub open spec fn find_segment(segments: Seq<Segment>, kind: u32, i: int) -> Option<Segment>
    decreases segments.len() - i,
{
    if i >= segments.len() {
        None
    } else if segments[i].kind == kind {
        Some(segments[i])
    } else {
        find_segment(segments, kind, i + 1)
    }
}

/// The program interpreter: the text of the `PT_INTERP` segment up to a NUL.
pub open spec fn interpreter(img: Image, segments: Seq<Segment>) -> Result<
    Option<Seq<char>>,
    ElfError,
> {
    match find_segment(segments, PT_INTERP, 0) {
        None => Ok(None),
        Some(seg) => match img.bytes(seg.offset, seg.filesz, "PT_INTERP") {
            Err(e) => Err(e),
            Ok(b) => Ok(Some(decoded(b.take(nul_from(b, 0))))),
        },
    }
}

/// The first section of a kind, from the `i`th on.
pub open spec fn find_section(sections: Seq<SectionModel>, kind: u32, i: int) -> Option<
    SectionModel,
>
    decreases sections.len() - i,
{
    if i >= sections.len() {
        None
    } else if sections[i].kind == kind {
        Some(sections[i])
    } else {
        find_section(sections, kind, i + 1)
    }
}

/// What the dynamic section names.
pub struct DynamicModel {
    pub needed: Seq<Seq<char>>,
    pub soname: Option<Seq<char>>,
    pub rpath: Option<Seq<char>>,
    pub runpath: Option<Seq<char>>,
}

pub open spec fn no_dynamic() -> DynamicModel {
    DynamicModel { needed: Seq::empty(), soname: None, rpath: None, runpath: None }
}

pub open spec fn dynamic_string(strtab: Seq<u8>, val: u64, what: &'static str) -> Result<
    Seq<char>,
    ElfError,
> {
    if val <= u32::MAX {
        cstring(strtab, val as u32, what)
    } else {
        Err(ElfError::UnterminatedString { what, offset: val })
    }
}

/// Reads the dynamic entries from the `i`th on, up to `DT_NULL`.
pub open spec fn dynamic_from(d: Image, strtab: Seq<u8>, i: int, found: DynamicModel) -> Result<
    DynamicModel,
    ElfError,
>
    decreases d.data.len() - i,
{
    let w = d.word_size() as int;
    if i < 0 || i >= d.data.len() as int / (2 * w) {
        Ok(found)
    } else {
        let tag = d.word_field(i * 2 * w);
        let val = d.word_field(i * 2 * w + w);
        if tag == DT_NULL {
            Ok(found)
        } else if tag == DT_NEEDED {
            match dynamic_string(strtab, val, "DT_NEEDED") {
                Err(e) => Err(e),
                Ok(s) => dynamic_from(
                    d,
                    strtab,
                    i + 1,
                    DynamicModel { needed: found.needed.push(s), ..found },
                ),
            }
        } else if tag == DT_SONAME {
            match dynamic_string(strtab, val, "DT_SONAME") {
                Err(e) => Err(e),
                Ok(s) => dynamic_from(d, strtab, i + 1, DynamicModel { soname: Some(s), ..found }),
            }
        } else if tag == DT_RPATH {
            match dynamic_string(strtab, val, "DT_RPATH") {
                Err(e) => Err(e),
                Ok(s) => dynamic_from(d, strtab, i + 1, DynamicModel { rpath: Some(s), ..found }),
            }
        } else if tag == DT_RUNPATH {
            match dynamic_string(strtab, val, "DT_RUNPATH") {
                Err(e) => Err(e),
                Ok(s) => dynamic_from(d, strtab, i + 1, DynamicModel { runpath: Some(s), ..found }),
            }
        } else {
            dynamic_from(d, strtab, i + 1, found)
        }
    }
}

/// The dynamic section, read with its string table.
pub open spec fn dynamic(img: Image, sections: Seq<SectionModel>) -> Result<
    DynamicModel,
    ElfError,
> {
    match find_section(sections, SHT_DYNAMIC, 0) {
        None => Ok(no_dynamic()),
        Some(s) => match section_data(img, s, ".dynamic") {
            Err(e) => Err(e),
            Ok(data) => match section_at(sections, s.link as u64, ".dynamic sh_link") {
                Err(e) => Err(e),
                Ok(t) => match section_data(img, t, ".dynamic string table") {
                    Err(e) => Err(e),
                    Ok(strtab) => dynamic_from(img.over(data), strtab, 0, no_dynamic()),
                },
            },
        },
    }
}

/// Version index to version name and, for imports, the providing file.
pub type Versions = Map<u16, (Seq<char>, Option<Seq<char>>)>;

/// Reads the auxiliary records of one version-need record.
pub open spec fn vernaux_from(
    d: Image,
    names: Seq<u8>,
    file: Seq<char>,
    aux: u64,
    left: nat,
    table: Versions,
) -> Result<Versions, ElfError>
    decreases left,
{
    if left == 0 {
        Ok(table)
    } else {
        match u16_in(d, aux, 6, "vna_other") {
            Err(e) => Err(e),
            Ok(other) => match u32_in(d, aux, 8, "vna_name") {
                Err(e) => Err(e),
                Ok(name_off) => match u32_in(d, aux, 12, "vna_next") {
                    Err(e) => Err(e),
                    Ok(next) => match cstring(names, name_off, "vna_name") {
                        Err(e) => Err(e),
                        Ok(name) => {
                            let more = table.insert(other & 0x7fff, (name, Some(file)));
                            if next == 0 {
                                Ok(more)
                            } else {
                                match sum(aux, next as u64, "vna_next") {
                                    Err(e) => Err(e),
                                    Ok(p) => vernaux_from(
                                        d,
                                        names,
                                        file,
                                        p,
                                        (left - 1) as nat,
                                        more,
                                    ),
                                }
                            }
                        },
                    },
                },
            },
        }
    }
}

pub open spec fn at_most(count: nat, limit: nat) -> nat {
    if count <= limit {
        count
    } else {
        limit
    }
}

/// Each version-need record is at least 16 bytes, which bounds a walk along a
/// chain that revisits the section.
pub open spec fn verneed_limit(d: Image) -> nat {
    d.data.len() / 16 + 1
}

/// Reads version-need records along their chain.
pub open spec fn verneed_from(
    d: Image,
    names: Seq<u8>,
    off: u64,
    left: nat,
    table: Versions,
) -> Result<Versions, ElfError>
    decreases left,
{
    if left == 0 {
        Ok(table)
    } else {
        match u16_in(d, off, 2, "vn_cnt") {
            Err(e) => Err(e),
            Ok(count) => match u32_in(d, off, 4, "vn_file") {
                Err(e) => Err(e),
                Ok(file_off) => match cstring(names, file_off, "vn_file") {
                    Err(e) => Err(e),
                    Ok(file) => match u32_in(d, off, 8, "vn_aux") {
                        Err(e) => Err(e),
                        Ok(aux_off) => match u32_in(d, off, 12, "vn_next") {
                            Err(e) => Err(e),
                            Ok(next) => match sum(off, aux_off as u64, "vn_aux") {
                                Err(e) => Err(e),
                                Ok(aux) => match vernaux_from(
                                    d,
                                    names,
                                    file,
                                    aux,
                                    at_most(count as nat, verneed_limit(d)),
                                    table,
                                ) {
                                    Err(e) => Err(e),
                                    Ok(more) => if next == 0 {
                                        Ok(more)
                                    } else {
                                        match sum(off, next as u64, "vn_next") {
                                            Err(e) => Err(e),
                                            Ok(p) => verneed_from(
                                                d,
                                                names,
                                                p,
                                                (left - 1) as nat,
                                                more,
                                            ),
                                        }
                                    },
                                },
                            },
                        },
                    },
                },
            },
        }
    }
}

/// Each version definition is at least 20 bytes.
pub open spec fn verdef_limit(d: Image) -> nat {
    d.data.len() / 20 + 1
}

/// The version that one definition record adds. Its first auxiliary record
/// names the version; later ones name its parents.
pub open spec fn verdef_entry(
    d: Image,
    names: Seq<u8>,
    off: u64,
    index: u16,
    count: u16,
    aux_off: u32,
    table: Versions,
) -> Result<Versions, ElfError> {
    if count == 0 {
        Ok(table)
    } else {
        match sum(off, aux_off as u64, "vd_aux") {
            Err(e) => Err(e),
            Ok(aux) => match d.u32_at(aux, "vda_name") {
                Err(e) => Err(e),
                Ok(name_off) => match cstring(names, name_off, "vda_name") {
                    Err(e) => Err(e),
                    Ok(name) => Ok(table.insert(index & 0x7fff, (name, None))),
                },
            },
        }
    }
}

/// Reads version-definition records along their chain.
pub open spec fn verdef_from(
    d: Image,
    names: Seq<u8>,
    off: u64,
    left: nat,
    table: Versions,
) -> Result<Versions, ElfError>
    decreases left,
{
    if left == 0 {
        Ok(table)
    } else {
        match u16_in(d, off, 4, "vd_ndx") {
            Err(e) => Err(e),
            Ok(index) => match u16_in(d, off, 6, "vd_cnt") {
                Err(e) => Err(e),
                Ok(count) => match u32_in(d, off, 12, "vd_aux") {
                    Err(e) => Err(e),
                    Ok(aux_off) => match u32_in(d, off, 16, "vd_next") {
                        Err(e) => Err(e),
                        Ok(next) => match verdef_entry(
                            d,
                            names,
                            off,
                            index,
                            count,
                            aux_off,
                            table,
                        ) {
                            Err(e) => Err(e),
                            Ok(more) => if next == 0 {
                                Ok(more)
                            } else {
                                match sum(off, next as u64, "vd_next") {
                                    Err(e) => Err(e),
                                    Ok(p) => verdef_from(d, names, p, (left - 1) as nat, more),
                                }
                            },
                        },
                    },
                },
            },
        }
    }
}

/// What one version section adds to the table.
pub open spec fn version_section(
    img: Image,
    sections: Seq<SectionModel>,
    s: SectionModel,
    table: Versions,
) -> Result<Versions, ElfError> {
    match section_data(img, s, "version section") {
        Err(e) => Err(e),
        Ok(body) => match section_at(sections, s.link as u64, "version sh_link") {
            Err(e) => Err(e),
            Ok(t) => match section_data(img, t, "version string table") {
                Err(e) => Err(e),
                Ok(names) => {
                    let d = img.over(body);
                    if s.kind == SHT_GNU_VERNEED {
                        verneed_from(d, names, 0, at_most(s.info as nat, verneed_limit(d)), table)
                    } else {
                        verdef_from(d, names, 0, at_most(s.info as nat, verdef_limit(d)), table)
                    }
                },
            },
        },
    }
}

/// Collects the versions of all version sections from the `i`th section on.
pub open spec fn versions_from(
    img: Image,
    sections: Seq<SectionModel>,
    i: int,
    table: Versions,
) -> Result<Versions, ElfError>
    decreases sections.len() - i,
{
    if i >= sections.len() {
        Ok(table)
    } else if sections[i].kind == SHT_GNU_VERNEED || sections[i].kind == SHT_GNU_VERDEF {
        match version_section(img, sections, sections[i], table) {
            Err(e) => Err(e),
            Ok(more) => versions_from(img, sections, i + 1, more),
        }
    } else {
        versions_from(img, sections, i + 1, table)
    }
}

pub open spec fn symbol_size(class: Class) -> u64 {
    match class {
        Class::Elf32 => 16,
        Class::Elf64 => 24,
    }
}

/// The fields of a symbol-table entry.
pub struct SymbolEntry {
    pub name: u32,
    pub value: u64,
    pub size: u64,
    pub info: u8,
    pub section_index: u16,
}

/// The symbol-table entry at an offset.
pub open spec fn symbol_entry(d: Image, off: int) -> SymbolEntry {
    match d.class {
        Class::Elf32 => SymbolEntry {
            name: d.field(off, 4) as u32,
            value: d.field(off + 4, 4) as u32 as u64,
            size: d.field(off + 8, 4) as u32 as u64,
            info: d.data[off + 12],
            section_index: d.field(off + 14, 2) as u16,
        },
        Class::Elf64 => SymbolEntry {
            name: d.field(off, 4) as u32,
            value: d.field(off + 8, 8) as u64,
            size: d.field(off + 16, 8) as u64,
            info: d.data[off + 4],
            section_index: d.field(off + 6, 2) as u16,
        },
    }
}

pub open spec fn binding_of(v: u8) -> Binding {
    if v == 0 {
        Binding::Local
    } else if v == 1 {
        Binding::Global
    } else if v == 2 {
        Binding::Weak
    } else if v == 10 {
        Binding::GnuUnique
    } else {
        Binding::Other(v)
    }
}

pub open spec fn type_of(v: u8) -> SymbolType {
    if v == 0 {
        SymbolType::NoType
    } else if v == 1 {
        SymbolType::Object
    } else if v == 2 {
        SymbolType::Func
    } else if v == 3 {
        SymbolType::Section
    } else if v == 4 {
        SymbolType::File
    } else if v == 5 {
        SymbolType::Common
    } else if v == 6 {
        SymbolType::Tls
    } else if v == 10 {
        SymbolType::GnuIfunc
    } else {
        SymbolType::Other(v)
    }
}

/// The version that a `.gnu.version` entry selects. Indices 0 and 1 mean
/// "local" and "global, unversioned".
pub open spec fn selected_version(raw: u16, table: Versions) -> Option<VersionModel> {
    let index = raw & 0x7fff;
    if index >= 2 && table.contains_key(index) {
        Some(
            VersionModel {
                name: table[index].0,
                file: table[index].1,
                hidden: raw & 0x8000 != 0,
            },
        )
    } else {
        None
    }
}

/// The version of the `i`th symbol, when `.gnu.version` covers it.
pub open spec fn symbol_version(
    img: Image,
    versym: Option<Seq<u8>>,
    table: Versions,
    i: int,
) -> Option<VersionModel> {
    match versym {
        Some(v) if (i + 1) * 2 <= v.len() => selected_version(
            img.over(v).field(i * 2, 2) as u16,
            table,
        ),
        _ => None,
    }
}

/// Reads the symbols from the `i`th entry on.
pub open spec fn symbols_from(
    d: Image,
    strtab: Seq<u8>,
    versym: Option<Seq<u8>>,
    table: Versions,
    i: int,
    done: Seq<SymbolModel>,
) -> Result<Seq<SymbolModel>, ElfError>
    decreases d.data.len() - i,
{
    let size = symbol_size(d.class) as int;
    if i < 0 || i >= d.data.len() as int / size {
        Ok(done)
    } else {
        let entry = symbol_entry(d, i * size);
        match cstring(strtab, entry.name, "symbol name") {
            Err(e) => Err(e),
            Ok(name) => symbols_from(
                d,
                strtab,
                versym,
                table,
                i + 1,
                done.push(
                    SymbolModel {
                        name,
                        binding: binding_of(entry.info >> 4),
                        kind: type_of(entry.info & 0xf),
                        section_index: entry.section_index,
                        value: entry.value,
                        size: entry.size,
                        version: symbol_version(d, versym, table, i),
                    },
                ),
            ),
        }
    }
}

/// The bytes of `.gnu.version`, when there is one.
pub open spec fn versym_data(img: Image, sections: Seq<SectionModel>) -> Result<
    Option<Seq<u8>>,
    ElfError,
> {
    match find_section(sections, SHT_GNU_VERSYM, 0) {
        None => Ok(None),
        Some(s) => match section_data(img, s, ".gnu.version") {
            Err(e) => Err(e),
            Ok(b) => Ok(Some(b)),
        },
    }
}

/// The dynamic symbol table without the reserved entry 0, with versions.
pub open spec fn dynsym(img: Image, sections: Seq<SectionModel>) -> Result<
    Seq<SymbolModel>,
    ElfError,
> {
    match find_section(sections, SHT_DYNSYM, 0) {
        None => Ok(Seq::empty()),
        Some(s) => match section_data(img, s, ".dynsym") {
            Err(e) => Err(e),
            Ok(data) => match section_at(sections, s.link as u64, ".dynsym sh_link") {
                Err(e) => Err(e),
                Ok(t) => match section_data(img, t, ".dynsym string table") {
                    Err(e) => Err(e),
                    Ok(strtab) => match versym_data(img, sections) {
                        Err(e) => Err(e),
                        Ok(versym) => match versions_from(img, sections, 0, Map::empty()) {
                            Err(e) => Err(e),
                            Ok(table) => symbols_from(
                                img.over(data),
                                strtab,
                                versym,
                                table,
                                1,
                                Seq::empty(),
                            ),
                        },
                    },
                },
            },
        },
    }
}

/// Allocated, neither writable nor executable, and stored in the file.
pub open spec fn is_read_only_data(s: SectionModel) -> bool {
    s.kind == SHT_PROGBITS && s.flags & SHF_ALLOC != 0 && s.flags & (SHF_WRITE | SHF_EXECINSTR) == 0
}

pub open spec fn is_printable(b: u8) -> bool {
    0x20 <= b < 0x7f
}

/// The shortest string worth keeping.
pub open spec fn min_string_len() -> int {
    4
}

/// `data[a..b]` is a whole NUL-terminated string, printable and long enough.
pub open spec fn string_between(data: Seq<u8>, a: int, b: int) -> bool {
    &&& 0 <= a
    &&& a + min_string_len() <= b < data.len()
    &&& data[b] == 0
    &&& a == 0 || data[a - 1] == 0
    &&& forall|j: int| a <= j < b ==> is_printable(#[trigger] data[j])
}

/// The strings stored in some bytes.
pub open spec fn strings_in(data: Seq<u8>) -> Set<Seq<char>> {
    Set::new(
        |t: Seq<char>|
            exists|a: int, b: int|
                #[trigger] string_between(data, a, b) && t == ascii(data.subrange(a, b)),
    )
}

/// The strings of `data` that end before `limit`.
pub open spec fn strings_before(data: Seq<u8>, limit: int) -> Set<Seq<char>> {
    Set::new(
        |t: Seq<char>|
            exists|a: int, b: int|
                #[trigger] string_between(data, a, b) && b < limit && t == ascii(
                    data.subrange(a, b),
                ),
    )
}

/// Collects the strings of the read-only data sections from the `i`th on.
pub open spec fn strings_from(
    img: Image,
    sections: Seq<SectionModel>,
    i: int,
    found: Set<Seq<char>>,
) -> Result<Set<Seq<char>>, ElfError>
    decreases sections.len() - i,
{
    if i >= sections.len() {
        Ok(found)
    } else if is_read_only_data(sections[i]) {
        match section_data(img, sections[i], "read-only data section") {
            Err(e) => Err(e),
            Ok(data) => strings_from(img, sections, i + 1, found.union(strings_in(data))),
        }
    } else {
        strings_from(img, sections, i + 1, found)
    }
}

/// The strings of all read-only data sections, each once, in order.
pub open spec fn rodata_strings(img: Image, sections: Seq<SectionModel>) -> Result<
    Seq<Seq<char>>,
    ElfError,
> {
    match strings_from(img, sections, 0, Set::empty()) {
        Err(e) => Err(e),
        Ok(found) => Ok(in_order::<String>(found)),
    }
}

/// What a file with a known class and byte order says.
#[verifier::opaque]
pub open spec fn image_model(img: Image) -> Result<ElfModel, ElfError> {
    let h = header(img);
    match img.bytes(0, header_size(img), "ELF header") {
        Err(e) => Err(e),
        Ok(_) => match raw_sections(img) {
            Err(e) => Err(e),
            Ok(raw) => match segments(img) {
                Err(e) => Err(e),
                Ok(segs) => match named_sections(img, raw) {
                    Err(e) => Err(e),
                    Ok(sections) => match interpreter(img, segs) {
                        Err(e) => Err(e),
                        Ok(interp) => match dynamic(img, sections) {
                            Err(e) => Err(e),
                            Ok(dy) => match dynsym(img, sections) {
                                Err(e) => Err(e),
                                Ok(symbols) => match rodata_strings(img, sections) {
                                    Err(e) => Err(e),
                                    Ok(strings) => Ok(
                                        ElfModel {
                                            class: img.class,
                                            endian: img.endian,
                                            file_type: h.file_type,
                                            machine: h.machine,
                                            interpreter: interp,
                                            segments: segs,
                                            sections,
                                            needed: dy.needed,
                                            soname: dy.soname,
                                            rpath: dy.rpath,
                                            runpath: dy.runpath,
                                            symbols,
                                            rodata_strings: strings,
                                        },
                                    ),
                                },
                            },
                        },
                    },
                },
            },
        },
    }
}

/// The four bytes every ELF file starts with.
pub open spec fn has_magic(data: Seq<u8>) -> bool {
    data.len() >= 4 && data[0] == 0x7f && data[1] == 0x45 && data[2] == 0x4c && data[3] == 0x46
}

/// What a file says, or why it is not a readable ELF file.
pub open spec fn elf_model(data: Seq<u8>) -> Result<ElfModel, ElfError> {
    if !has_magic(data) {
        Err(ElfError::NotElf)
    } else if data.len() < 16 {
        Err(ElfError::Truncated { what: "e_ident", offset: 0, len: 16 })
    } else if data[4] != 1 && data[4] != 2 {
        Err(ElfError::UnsupportedClass(data[4]))
    } else if data[5] != 1 && data[5] != 2 {
        Err(ElfError::UnsupportedEncoding(data[5]))
    } else {
        image_model(
            Image {
                data,
                class: if data[4] == 1 {
                    Class::Elf32
                } else {
                    Class::Elf64
                },
                endian: if data[5] == 1 {
                    Endian::Little
                } else {
                    Endian::Big
                },
            },
        )
    }
}

} // verus!
