//! An ELF reader for the parts of an object that matter to a dynamic-linking
//! audit: headers, the dynamic section, `.dynsym`, GNU symbol versioning and
//! read-only string data.
//!
//! Every read goes through [`Reader`], which bounds-checks with checked
//! arithmetic, so malformed input yields an [`ElfError`]. Table sizes are
//! validated against the file length before anything is allocated, which keeps
//! hostile header counts from exhausting memory.

use crate::elf_model;
use crate::elf_model::{
    at_most, big, binding_of, bytes_of, cstring, dynamic, dynamic_from, dynamic_string, dynsym,
    elf_model, find_section, find_segment, has_magic, header, header_result, header_size,
    image_model, interpreter, is_printable, little, min_string_len, named_from, named_sections,
    no_dynamic, nul_from, product, program_header, program_header_size, raw_sections, raw_views,
    rodata_strings, section_header, section_header_size, section_view, section_zero, segments,
    selected_version, string_between, strings_before, strings_from, strings_in, sum, symbol_entry,
    symbol_size, symbol_version, symbols_from, text_of, text_result, type_of, u16_in, u32_in,
    verdef_from, verdef_limit, vernaux_from, verneed_from, verneed_limit, version_view,
    versions_from, versym_view, word_in, DynamicModel, ElfModel, Header, Image, SectionModel,
    SymbolEntry, SymbolModel, VersionModel, Versions,
};
use crate::order::{ascending, insert_unique, lemma_in_order, lemma_texts_are_views, views};
use crate::text::{ascii, ascii_string, decimal, decimal_of, hex, hex_of, lossy_string, texts};
use std::collections::HashMap;
use vstd::prelude::*;
use vstd::slice::slice_subrange;

verus! {

pub const ET_EXEC: u16 = 2;

pub const ET_DYN: u16 = 3;

pub const PT_LOAD: u32 = 1;

pub const PT_DYNAMIC: u32 = 2;

pub const PT_INTERP: u32 = 3;

pub const SHT_PROGBITS: u32 = 1;

pub const SHT_STRTAB: u32 = 3;

pub const SHT_DYNAMIC: u32 = 6;

pub const SHT_NOBITS: u32 = 8;

pub const SHT_DYNSYM: u32 = 11;

pub const SHT_GNU_VERDEF: u32 = 0x6fff_fffd;

pub const SHT_GNU_VERNEED: u32 = 0x6fff_fffe;

pub const SHT_GNU_VERSYM: u32 = 0x6fff_ffff;

pub const SHF_WRITE: u64 = 1;

pub const SHF_ALLOC: u64 = 2;

pub const SHF_EXECINSTR: u64 = 4;

pub const DT_NULL: u64 = 0;

pub const DT_NEEDED: u64 = 1;

pub const DT_SONAME: u64 = 14;

pub const DT_RPATH: u64 = 15;

pub const DT_RUNPATH: u64 = 29;

#[derive(Debug, Clone, Copy, PartialEq, Eq, Structural)]
pub enum Class {
    Elf32,
    Elf64,
}

#[derive(Debug, Clone, Copy, PartialEq, Eq, Structural)]
pub enum Endian {
    Little,
    Big,
}

#[derive(Debug, Clone, PartialEq, Eq)]
pub enum ElfError {
    /// The input does not start with the ELF magic bytes.
    NotElf,
    UnsupportedClass(u8),
    UnsupportedEncoding(u8),
    /// A structure extends past the end of the file (or its offset overflows).
    Truncated { what: &'static str, offset: u64, len: u64 },
    /// A header declares an entry size smaller than the structure it describes.
    BadEntrySize { what: &'static str, size: u64 },
    /// A section index (sh_link, e_shstrndx) points at a section that does not exist.
    BadSectionIndex { what: &'static str, index: u64 },
    /// A string-table offset has no terminating NUL inside its table.
    UnterminatedString { what: &'static str, offset: u64 },
}

/// The text of an error, as shown to the user.
pub open spec fn error_text(e: ElfError) -> Seq<char> {
    match e {
        ElfError::NotElf => "not an ELF file"@,
        ElfError::UnsupportedClass(c) => "unsupported ELF class "@ + decimal(c as nat),
        ElfError::UnsupportedEncoding(c) => "unsupported ELF data encoding "@ + decimal(c as nat),
        ElfError::Truncated { what, offset, len } => what@ + " at offset "@ + hex(offset as nat)
            + " (+"@ + hex(len as nat) + ") is out of bounds"@,
        ElfError::BadEntrySize { what, size } => what@ + " has invalid entry size "@ + decimal(
            size as nat,
        ),
        ElfError::BadSectionIndex { what, index } => what@ + " refers to missing section "@
            + decimal(index as nat),
        ElfError::UnterminatedString { what, offset } => what@ + " string at offset "@ + hex(
            offset as nat,
        ) + " is not NUL-terminated"@,
    }
}

impl ElfError {
    /// A description of the error for the user.
    pub fn message(&self) -> (r: String)
        ensures
            r@ == error_text(*self),
    {
        let mut out = String::new();
        match self {
            ElfError::NotElf => {
                out.append("not an ELF file");
            },
            ElfError::UnsupportedClass(c) => {
                out.append("unsupported ELF class ");
                out.append(decimal_of(*c as u64).as_str());
            },
            ElfError::UnsupportedEncoding(c) => {
                out.append("unsupported ELF data encoding ");
                out.append(decimal_of(*c as u64).as_str());
            },
            ElfError::Truncated { what, offset, len } => {
                out.append(what);
                out.append(" at offset ");
                out.append(hex_of(*offset).as_str());
                out.append(" (+");
                out.append(hex_of(*len).as_str());
                out.append(") is out of bounds");
            },
            ElfError::BadEntrySize { what, size } => {
                out.append(what);
                out.append(" has invalid entry size ");
                out.append(decimal_of(*size).as_str());
            },
            ElfError::BadSectionIndex { what, index } => {
                out.append(what);
                out.append(" refers to missing section ");
                out.append(decimal_of(*index).as_str());
            },
            ElfError::UnterminatedString { what, offset } => {
                out.append(what);
                out.append(" string at offset ");
                out.append(hex_of(*offset).as_str());
                out.append(" is not NUL-terminated");
            },
        }
        out
    }
}

#[derive(Debug, Clone, Copy, PartialEq, Eq, Structural)]
pub enum Binding {
    Local,
    Global,
    Weak,
    GnuUnique,
    Other(u8),
}

#[derive(Debug, Clone, Copy, PartialEq, Eq, Structural)]
pub enum SymbolType {
    NoType,
    Object,
    Func,
    Section,
    File,
    Common,
    Tls,
    GnuIfunc,
    Other(u8),
}

impl Binding {
    pub fn from_raw(v: u8) -> (r: Binding)
        ensures
            r == binding_of(v),
    {
        match v {
            0 => Binding::Local,
            1 => Binding::Global,
            2 => Binding::Weak,
            10 => Binding::GnuUnique,
            other => Binding::Other(other),
        }
    }
}

impl SymbolType {
    pub fn from_raw(v: u8) -> (r: SymbolType)
        ensures
            r == type_of(v),
    {
        match v {
            0 => SymbolType::NoType,
            1 => SymbolType::Object,
            2 => SymbolType::Func,
            3 => SymbolType::Section,
            4 => SymbolType::File,
            5 => SymbolType::Common,
            6 => SymbolType::Tls,
            10 => SymbolType::GnuIfunc,
            other => SymbolType::Other(other),
        }
    }
}

/// A GNU symbol version attached to a `.dynsym` entry.
#[derive(Debug, Clone, PartialEq, Eq)]
pub struct SymbolVersion {
    pub name: String,
    /// For imports (`.gnu.version_r`), the library expected to provide the version.
    /// `None` for versions this object defines (`.gnu.version_d`).
    pub file: Option<String>,
    /// Set when the versym entry has the hidden bit (`sym@VER` rather than `sym@@VER`).
    pub hidden: bool,
}

impl View for SymbolVersion {
    type V = VersionModel;

    open spec fn view(&self) -> VersionModel {
        VersionModel { name: self.name@, file: text_of(self.file), hidden: self.hidden }
    }
}

#[derive(Debug, Clone, PartialEq, Eq)]
pub struct Symbol {
    pub name: String,
    pub binding: Binding,
    pub kind: SymbolType,
    pub section_index: u16,
    pub value: u64,
    pub size: u64,
    pub version: Option<SymbolVersion>,
}

impl View for Symbol {
    type V = SymbolModel;

    open spec fn view(&self) -> SymbolModel {
        SymbolModel {
            name: self.name@,
            binding: self.binding,
            kind: self.kind,
            section_index: self.section_index,
            value: self.value,
            size: self.size,
            version: match self.version {
                Some(v) => Some(v@),
                None => None,
            },
        }
    }
}

impl Symbol {
    /// True for symbols this object expects some other object to provide.
    pub fn is_undefined(&self) -> (r: bool)
        ensures
            r == self@.is_undefined(),
    {
        self.section_index == 0
    }
}

#[derive(Debug, Clone, PartialEq, Eq)]
pub struct Section {
    pub name: String,
    pub kind: u32,
    pub flags: u64,
    pub addr: u64,
    pub offset: u64,
    pub size: u64,
    pub link: u32,
    pub info: u32,
    pub entsize: u64,
}

impl View for Section {
    type V = SectionModel;

    open spec fn view(&self) -> SectionModel {
        SectionModel {
            name: self.name@,
            kind: self.kind,
            flags: self.flags,
            addr: self.addr,
            offset: self.offset,
            size: self.size,
            link: self.link,
            info: self.info,
            entsize: self.entsize,
        }
    }
}

#[derive(Debug, Clone, PartialEq, Eq)]
pub struct Segment {
    pub kind: u32,
    pub flags: u32,
    pub offset: u64,
    pub vaddr: u64,
    pub filesz: u64,
    pub memsz: u64,
}

#[derive(Debug, Clone, PartialEq, Eq)]
pub struct ElfFile {
    pub class: Class,
    pub endian: Endian,
    pub file_type: u16,
    pub machine: u16,
    pub interpreter: Option<String>,
    pub segments: Vec<Segment>,
    pub sections: Vec<Section>,
    pub needed: Vec<String>,
    pub soname: Option<String>,
    pub rpath: Option<String>,
    pub runpath: Option<String>,
    /// `.dynsym` entries, without the reserved null symbol at index 0.
    pub symbols: Vec<Symbol>,
    /// NUL-terminated printable strings from read-only, non-executable data
    /// sections, sorted and de-duplicated.
    pub rodata_strings: Vec<String>,
}

impl View for ElfFile {
    type V = ElfModel;

    open spec fn view(&self) -> ElfModel {
        ElfModel {
            class: self.class,
            endian: self.endian,
            file_type: self.file_type,
            machine: self.machine,
            interpreter: text_of(self.interpreter),
            segments: self.segments@,
            sections: views(self.sections@),
            needed: texts(self.needed@),
            soname: text_of(self.soname),
            rpath: text_of(self.rpath),
            runpath: text_of(self.runpath),
            symbols: views(self.symbols@),
            rodata_strings: texts(self.rodata_strings@),
        }
    }
}

/// Bounds-checked access to bytes of a known class and byte order.
#[derive(Debug, Clone, Copy)]
pub struct Reader<'a> {
    pub data: &'a [u8],
    pub endian: Endian,
    pub class: Class,
}

impl<'a> View for Reader<'a> {
    type V = Image;

    open spec fn view(&self) -> Image {
        Image { data: self.data@, class: self.class, endian: self.endian }
    }
}

/// Adds two offsets.
fn offset_sum(a: u64, b: u64, what: &'static str) -> (r: Result<u64, ElfError>)
    ensures
        r == sum(a, b, what),
{
    match a.checked_add(b) {
        Some(v) => Ok(v),
        None => Err(ElfError::Truncated { what, offset: a, len: b }),
    }
}

/// Multiplies a count with an entry size.
fn table_size(a: u64, b: u64, what: &'static str) -> (r: Result<u64, ElfError>)
    ensures
        r == product(a, b, what),
{
    match a.checked_mul(b) {
        Some(v) => Ok(v),
        None => Err(ElfError::Truncated { what, offset: a, len: b }),
    }
}

/// `n` bytes hold numbers below this.
pub open spec fn bound(n: nat) -> nat
    decreases n,
{
    if n == 0 {
        1
    } else {
        256 * bound((n - 1) as nat)
    }
}

proof fn lemma_bound_grows(a: nat, b: nat)
    requires
        a <= b,
    ensures
        1 <= bound(a) <= bound(b),
    decreases b,
{
    if a < b {
        lemma_bound_grows(a, (b - 1) as nat);
    } else if b > 0 {
        lemma_bound_grows((a - 1) as nat, (b - 1) as nat);
    }
}

/// The number that at most eight bytes spell, least significant byte first.
fn little_number(b: &[u8]) -> (r: u64)
    requires
        b@.len() <= 8,
    ensures
        r == little(b@),
        r < bound(b@.len()),
{
    let mut value: u64 = 0;
    let mut i: usize = b.len();
    assert(b@.skip(i as int) =~= Seq::<u8>::empty());
    while i > 0
        invariant
            i <= b@.len() <= 8,
            value == little(b@.skip(i as int)),
            value < bound((b@.len() - i) as nat),
        decreases i,
    {
        i = i - 1;
        proof {
            assert(b@.skip(i as int).drop_first() =~= b@.skip(i + 1));
            lemma_bound_grows((b@.len() - i) as nat, 8);
            assert(bound(8) == 0x1_0000_0000_0000_0000) by {
                reveal_with_fuel(bound, 9);
            }
        }
        value = value * 256 + b[i] as u64;
    }
    assert(b@.skip(0) =~= b@);
    value
}

/// The number that at most eight bytes spell, most significant byte first.
fn big_number(b: &[u8]) -> (r: u64)
    requires
        b@.len() <= 8,
    ensures
        r == big(b@),
        r < bound(b@.len()),
{
    let mut value: u64 = 0;
    let mut i: usize = 0;
    assert(b@.take(0) =~= Seq::<u8>::empty());
    while i < b.len()
        invariant
            i <= b@.len() <= 8,
            value == big(b@.take(i as int)),
            value < bound(i as nat),
        decreases b@.len() - i,
    {
        proof {
            assert(b@.take(i + 1).drop_last() =~= b@.take(i as int));
            lemma_bound_grows((i + 1) as nat, 8);
            assert(bound(8) == 0x1_0000_0000_0000_0000) by {
                reveal_with_fuel(bound, 9);
            }
        }
        value = value * 256 + b[i] as u64;
        i = i + 1;
    }
    assert(b@.take(b@.len() as int) =~= b@);
    value
}

impl<'a> Reader<'a> {
    /// The same class and byte order over other bytes.
    pub fn with_data(self, data: &'a [u8]) -> (r: Reader<'a>)
        ensures
            r@ == self@.over(data@),
    {
        Reader { data, endian: self.endian, class: self.class }
    }

    pub fn word_size(&self) -> (r: u64)
        ensures
            r == self@.word_size(),
    {
        match self.class {
            Class::Elf32 => 4,
            Class::Elf64 => 8,
        }
    }

    pub fn bytes(&self, offset: u64, len: u64, what: &'static str) -> (r: Result<
        &'a [u8],
        ElfError,
    >)
        ensures
            bytes_of(r) == self@.bytes(offset, len, what),
    {
        let total: u64 = self.data.len() as u64;
        if offset <= total && len <= total - offset {
            Ok(slice_subrange(self.data, offset as usize, (offset + len) as usize))
        } else {
            Err(ElfError::Truncated { what, offset, len })
        }
    }

    /// An unsigned number of `len` bytes.
    fn unsigned(&self, offset: u64, len: u64, what: &'static str) -> (r: Result<u64, ElfError>)
        requires
            len <= 8,
        ensures
            match r {
                Ok(v) => self@.fits(offset as int, len as int) && v == self@.field(
                    offset as int,
                    len as int,
                ) && v < bound(len as nat),
                Err(e) => !self@.fits(offset as int, len as int) && e == (ElfError::Truncated {
                    what,
                    offset,
                    len,
                }),
            },
    {
        let b = self.bytes(offset, len, what)?;
        match self.endian {
            Endian::Little => Ok(little_number(b)),
            Endian::Big => Ok(big_number(b)),
        }
    }

    pub fn u8(&self, offset: u64, what: &'static str) -> (r: Result<u8, ElfError>)
        ensures
            r == self@.u8_at(offset, what),
    {
        let b = self.bytes(offset, 1, what)?;
        Ok(b[0])
    }

    pub fn u16(&self, offset: u64, what: &'static str) -> (r: Result<u16, ElfError>)
        ensures
            r == self@.u16_at(offset, what),
    {
        let v: u64 = self.unsigned(offset, 2, what)?;
        proof {
            reveal_with_fuel(bound, 9);
        }
        Ok(v as u16)
    }

    pub fn u32(&self, offset: u64, what: &'static str) -> (r: Result<u32, ElfError>)
        ensures
            r == self@.u32_at(offset, what),
    {
        let v: u64 = self.unsigned(offset, 4, what)?;
        proof {
            reveal_with_fuel(bound, 9);
        }
        Ok(v as u32)
    }

    pub fn u64(&self, offset: u64, what: &'static str) -> (r: Result<u64, ElfError>)
        ensures
            r == self@.u64_at(offset, what),
    {
        self.unsigned(offset, 8, what)
    }

    /// An address-sized field: 4 bytes in ELF32, 8 in ELF64.
    pub fn word(&self, offset: u64, what: &'static str) -> (r: Result<u64, ElfError>)
        ensures
            r == self@.word_at(offset, what),
    {
        self.unsigned(offset, self.word_size(), what)
    }
}

/// The string at an offset of a string table, which must hold its NUL.
pub fn cstr(table: &[u8], offset: u32, what: &'static str) -> (r: Result<String, ElfError>)
    ensures
        text_result(r) == cstring(table@, offset, what),
{
    let start: usize = offset as usize;
    if start >= table.len() {
        return Err(ElfError::UnterminatedString { what, offset: offset as u64 });
    }
    let mut end: usize = start;
    while end < table.len() && table[end] != 0
        invariant
            start <= end <= table@.len(),
            nul_from(table@, start as int) == nul_from(table@, end as int),
        decreases table@.len() - end,
    {
        end = end + 1;
    }
    if end == table.len() {
        return Err(ElfError::UnterminatedString { what, offset: offset as u64 });
    }
    Ok(lossy_string(slice_subrange(table, start, end)))
}

/// A 4-byte field of the record at `off`.
fn u32_field(r: &Reader, off: u64, delta: u64, what: &'static str) -> (res: Result<u32, ElfError>)
    ensures
        res == u32_in(r@, off, delta, what),
{
    r.u32(offset_sum(off, delta, what)?, what)
}

/// A 2-byte field of the record at `off`.
fn u16_field(r: &Reader, off: u64, delta: u64, what: &'static str) -> (res: Result<u16, ElfError>)
    ensures
        res == u16_in(r@, off, delta, what),
{
    r.u16(offset_sum(off, delta, what)?, what)
}

/// An address-sized field of the record at `off`.
fn word_field(r: &Reader, off: u64, delta: u64, what: &'static str) -> (res: Result<u64, ElfError>)
    ensures
        res == word_in(r@, off, delta, what),
{
    r.word(offset_sum(off, delta, what)?, what)
}

/// Returns the raw sh_name offset alongside the section; names are resolved
/// once the whole table, and so the name table's location, is known.
fn read_section_header(r: &Reader, off: u64) -> (res: Result<(u32, Section), ElfError>)
    ensures
        header_result(res) == section_header(r@, off),
{
    let w: u64 = r.word_size();
    let name_offset: u32 = r.u32(off, "sh_name")?;
    let section = Section {
        name: String::new(),
        kind: u32_field(r, off, 4, "sh_type")?,
        flags: word_field(r, off, 8, "sh_flags")?,
        addr: word_field(r, off, 8 + w, "sh_addr")?,
        offset: word_field(r, off, 8 + 2 * w, "sh_offset")?,
        size: word_field(r, off, 8 + 3 * w, "sh_size")?,
        link: u32_field(r, off, 8 + 4 * w, "sh_link")?,
        info: u32_field(r, off, 12 + 4 * w, "sh_info")?,
        entsize: word_field(r, off, 16 + 5 * w, "sh_entsize")?,
    };
    assert(section.name@ =~= Seq::<char>::empty());
    Ok((name_offset, section))
}

/// Reads a program header that lies within the file.
fn read_program_header(r: &Reader, off: u64) -> (res: Result<Segment, ElfError>)
    requires
        r@.fits(off as int, program_header_size(r@) as int),
    ensures
        res == Ok::<Segment, ElfError>(program_header(r@, off as int)),
{
    let what = "program header";
    let total: usize = r.data.len();
    assert(off + program_header_size(r@) <= total);
    match r.class {
        Class::Elf32 => Ok(
            Segment {
                kind: r.u32(off, "p_type")?,
                offset: r.u32(offset_sum(off, 4, what)?, "p_offset")? as u64,
                vaddr: r.u32(offset_sum(off, 8, what)?, "p_vaddr")? as u64,
                filesz: r.u32(offset_sum(off, 16, what)?, "p_filesz")? as u64,
                memsz: r.u32(offset_sum(off, 20, what)?, "p_memsz")? as u64,
                flags: r.u32(offset_sum(off, 24, what)?, "p_flags")?,
            },
        ),
        Class::Elf64 => Ok(
            Segment {
                kind: r.u32(off, "p_type")?,
                flags: r.u32(offset_sum(off, 4, what)?, "p_flags")?,
                offset: r.u64(offset_sum(off, 8, what)?, "p_offset")?,
                vaddr: r.u64(offset_sum(off, 16, what)?, "p_vaddr")?,
                filesz: r.u64(offset_sum(off, 32, what)?, "p_filesz")?,
                memsz: r.u64(offset_sum(off, 40, what)?, "p_memsz")?,
            },
        ),
    }
}

/// The fixed part of the file header.
fn read_header(r: &Reader) -> (res: Result<Header, ElfError>)
    requires
        r@.fits(0, header_size(r@) as int),
    ensures
        res == Ok::<Header, ElfError>(header(r@)),
{
    let w: u64 = r.word_size();
    Ok(
        Header {
            file_type: r.u16(16, "e_type")?,
            machine: r.u16(18, "e_machine")?,
            phoff: r.word(24 + w, "e_phoff")?,
            shoff: r.word(24 + 2 * w, "e_shoff")?,
            phentsize: r.u16(30 + 3 * w, "e_phentsize")? as u64,
            phnum: r.u16(32 + 3 * w, "e_phnum")?,
            shentsize: r.u16(34 + 3 * w, "e_shentsize")? as u64,
            shnum: r.u16(36 + 3 * w, "e_shnum")?,
            shstrndx: r.u16(38 + 3 * w, "e_shstrndx")?,
        },
    )
}

/// Where the `i`th of `count` table entries lies.
proof fn lemma_entry(i: int, count: int, size: int)
    requires
        0 <= i < count,
        0 <= size,
    ensures
        0 <= i * size,
        i * size + size <= count * size,
{
    assert(i * size + size == (i + 1) * size) by (nonlinear_arith);
    assert((i + 1) * size <= count * size) by (nonlinear_arith)
        requires
            i + 1 <= count,
            0 <= size,
    ;
    assert(0 <= i * size) by (nonlinear_arith)
        requires
            0 <= i,
            0 <= size,
    ;
}

/// Reads the section header table, and section 0 when there is a table.
fn read_sections(r: &Reader, h: &Header) -> (res: Result<
    (Vec<(u32, Section)>, Option<Section>),
    ElfError,
>)
    requires
        *h == header(r@),
    ensures
        match res {
            Ok((raw, zero)) => raw_sections(r@) == Ok::<_, ElfError>(raw_views(raw@))
                && section_view(zero) == section_zero(r@),
            Err(e) => raw_sections(r@) == Err::<Seq<(u32, SectionModel)>, _>(e),
        },
{
    let mut raw: Vec<(u32, Section)> = Vec::new();
    if h.shoff == 0 {
        assert(raw_views(raw@) =~= Seq::<(u32, SectionModel)>::empty());
        return Ok((raw, None));
    }
    if h.shentsize < 16 + 6 * r.word_size() {
        return Err(ElfError::BadEntrySize { what: "section header", size: h.shentsize });
    }
    let (_, zero) = read_section_header(r, h.shoff)?;
    // With more than 0xff00 sections the real count lives in section 0.
    let count: u64 = if h.shnum == 0 {
        zero.size
    } else {
        h.shnum as u64
    };
    let table_len: u64 = table_size(count, h.shentsize, "section header table")?;
    let _ = r.bytes(h.shoff, table_len, "section header table")?;
    let total: usize = r.data.len();
    let ghost model = raw_sections(r@)->Ok_0;
    let mut i: u64 = 0;
    while i < count
        invariant
            i <= count,
            raw@.len() == i,
            total == r@.data.len(),
            h.shoff + count * h.shentsize <= total,
            h.shentsize >= section_header_size(r@),
            model.len() == count,
            forall|j: int|
                0 <= j < count ==> #[trigger] model[j] == section_header(
                    r@,
                    (h.shoff + j * h.shentsize) as u64,
                )->Ok_0,
            forall|j: int|
                0 <= j < i ==> (#[trigger] raw@[j]).0 == model[j].0 && raw@[j].1@ == model[j].1,
        decreases count - i,
    {
        proof {
            lemma_entry(i as int, count as int, h.shentsize as int);
        }
        let off: u64 = h.shoff + i * h.shentsize;
        let entry = read_section_header(r, off)?;
        assert(model[i as int] == section_header(r@, off)->Ok_0);
        raw.push(entry);
        i = i + 1;
    }
    assert(raw_views(raw@) =~= model);
    Ok((raw, Some(zero)))
}

/// Reads the program header table.
fn read_segments(r: &Reader, h: &Header, zero: &Option<Section>) -> (res: Result<
    Vec<Segment>,
    ElfError,
>)
    requires
        *h == header(r@),
        section_view(*zero) == section_zero(r@),
    ensures
        match res {
            Ok(segs) => segments(r@) == Ok::<_, ElfError>(segs@),
            Err(e) => segments(r@) == Err::<Seq<Segment>, _>(e),
        },
{
    let count: u64 = if h.phnum == 0xffff {
        match zero {
            Some(s) => s.info as u64,
            None => 0,
        }
    } else {
        h.phnum as u64
    };
    let mut segs: Vec<Segment> = Vec::new();
    if count == 0 || h.phoff == 0 {
        return Ok(segs);
    }
    let entry_size: u64 = match r.class {
        Class::Elf32 => 32,
        Class::Elf64 => 56,
    };
    if h.phentsize < entry_size {
        return Err(ElfError::BadEntrySize { what: "program header", size: h.phentsize });
    }
    let table_len: u64 = table_size(count, h.phentsize, "program header table")?;
    let _ = r.bytes(h.phoff, table_len, "program header table")?;
    let total: usize = r.data.len();
    let ghost model = segments(r@)->Ok_0;
    let mut i: u64 = 0;
    while i < count
        invariant
            i <= count,
            segs@.len() == i,
            total == r@.data.len(),
            *h == header(r@),
            h.phoff + count * h.phentsize <= total,
            h.phentsize >= program_header_size(r@),
            model.len() == count,
            segments(r@) == Ok::<_, ElfError>(model),
            forall|j: int|
                0 <= j < count ==> #[trigger] model[j] == program_header(
                    r@,
                    h.phoff + j * h.phentsize,
                ),
            segs@ =~= model.take(i as int),
        decreases count - i,
    {
        proof {
            lemma_entry(i as int, count as int, h.phentsize as int);
        }
        let off: u64 = h.phoff + i * h.phentsize;
        let seg = read_program_header(r, off)?;
        assert(seg == model[i as int]);
        segs.push(seg);
        i = i + 1;
    }
    assert(model.take(count as int) =~= model);
    Ok(segs)
}

/// The section with the given index.
fn section_at<'s>(sections: &'s [Section], index: u64, what: &'static str) -> (res: Result<
    &'s Section,
    ElfError,
>)
    ensures
        match res {
            Ok(s) => elf_model::section_at(views(sections@), index, what) == Ok::<_, ElfError>(s@),
            Err(e) => elf_model::section_at(views(sections@), index, what) == Err::<
                SectionModel,
                _,
            >(e),
        },
{
    if index < sections.len() as u64 {
        Ok(&sections[index as usize])
    } else {
        Err(ElfError::BadSectionIndex { what, index })
    }
}

/// The bytes of a section; `SHT_NOBITS` sections occupy none.
fn section_data<'a>(r: &Reader<'a>, s: &Section, what: &'static str) -> (res: Result<
    &'a [u8],
    ElfError,
>)
    ensures
        bytes_of(res) == elf_model::section_data(r@, s@, what),
{
    if s.kind == SHT_NOBITS {
        let empty = slice_subrange(r.data, 0, 0);
        assert(empty@ =~= Seq::<u8>::empty());
        return Ok(empty);
    }
    r.bytes(s.offset, s.size, what)
}

/// Gives each section its name, out of the section name table.
fn name_sections(
    r: &Reader,
    h: &Header,
    zero: &Option<Section>,
    raw: Vec<(u32, Section)>,
) -> (res: Result<Vec<Section>, ElfError>)
    requires
        *h == header(r@),
        section_view(*zero) == section_zero(r@),
    ensures
        match res {
            Ok(sections) => named_sections(r@, raw_views(raw@)) == Ok::<_, ElfError>(
                views(sections@),
            ),
            Err(e) => named_sections(r@, raw_views(raw@)) == Err::<Seq<SectionModel>, _>(e),
        },
{
    let mut sections: Vec<Section> = Vec::new();
    let mut offsets: Vec<u32> = Vec::new();
    let ghost model = raw_views(raw@);
    let ghost bare = model.map_values(|p: (u32, SectionModel)| p.1);
    for entry in it: raw
        invariant
            it.seq() == raw@,
            model == raw_views(raw@),
            bare == model.map_values(|p: (u32, SectionModel)| p.1),
            sections@.len() == it.index(),
            offsets@.len() == it.index(),
            forall|j: int| 0 <= j < it.index() ==> (#[trigger] sections@[j])@ == bare[j],
            forall|j: int| 0 <= j < it.index() ==> #[trigger] offsets@[j] == model[j].0,
    {
        let (offset, section) = entry;
        sections.push(section);
        offsets.push(offset);
    }
    assert(views(sections@) =~= bare);
    let index: u64 = if h.shstrndx == 0xffff {
        match zero {
            Some(s) => s.link as u64,
            None => 0,
        }
    } else {
        h.shstrndx as u64
    };
    if sections.len() == 0 || index == 0 {
        return Ok(sections);
    }
    let names = section_data(r, section_at(&sections, index, "e_shstrndx")?, "section name table")?;
    let mut i: usize = 0;
    assert(views(sections@).take(0) =~= Seq::<SectionModel>::empty());
    while i < sections.len()
        invariant
            i <= sections@.len(),
            sections@.len() == offsets@.len() == model.len() == bare.len(),
            bare == model.map_values(|p: (u32, SectionModel)| p.1),
            forall|j: int| 0 <= j < model.len() ==> #[trigger] offsets@[j] == model[j].0,
            forall|j: int| i <= j < model.len() ==> (#[trigger] sections@[j])@ == bare[j],
            named_from(names@, model, 0, Seq::empty()) == named_from(
                names@,
                model,
                i as int,
                views(sections@).take(i as int),
            ),
            named_sections(r@, model) == named_from(names@, model, 0, Seq::empty()),
            model == raw_views(raw@),
        decreases sections@.len() - i,
    {
        let name = cstr(names, offsets[i], "section name")?;
        let s = &sections[i];
        let named = Section {
            name,
            kind: s.kind,
            flags: s.flags,
            addr: s.addr,
            offset: s.offset,
            size: s.size,
            link: s.link,
            info: s.info,
            entsize: s.entsize,
        };
        let ghost before = sections@;
        sections.set(i, named);
        assert(views(sections@).take(i + 1) =~= views(before).take(i as int).push(
            SectionModel { name: named.name@, ..model[i as int].1 },
        ));
        i = i + 1;
    }
    assert(views(sections@).take(i as int) =~= views(sections@));
    Ok(sections)
}

/// The text of the first `PT_INTERP` segment, up to a NUL.
fn read_interpreter(r: &Reader, segs: &[Segment]) -> (res: Result<Option<String>, ElfError>)
    ensures
        match res {
            Ok(s) => interpreter(r@, segs@) == Ok::<_, ElfError>(text_of(s)),
            Err(e) => interpreter(r@, segs@) == Err::<Option<Seq<char>>, _>(e),
        },
{
    let mut i: usize = 0;
    while i < segs.len()
        invariant
            i <= segs@.len(),
            find_segment(segs@, PT_INTERP, 0) == find_segment(segs@, PT_INTERP, i as int),
        decreases segs@.len() - i,
    {
        if segs[i].kind == PT_INTERP {
            let bytes = r.bytes(segs[i].offset, segs[i].filesz, "PT_INTERP")?;
            let mut end: usize = 0;
            while end < bytes.len() && bytes[end] != 0
                invariant
                    end <= bytes@.len(),
                    nul_from(bytes@, 0) == nul_from(bytes@, end as int),
                decreases bytes@.len() - end,
            {
                end = end + 1;
            }
            return Ok(Some(lossy_string(slice_subrange(bytes, 0, end))));
        }
        i = i + 1;
    }
    Ok(None)
}

/// The first section of a kind.
fn section_of_kind<'s>(sections: &'s [Section], kind: u32) -> (res: Option<&'s Section>)
    ensures
        match res {
            Some(s) => find_section(views(sections@), kind, 0) == Some(s@),
            None => find_section(views(sections@), kind, 0) is None,
        },
{
    let mut i: usize = 0;
    while i < sections.len()
        invariant
            i <= sections@.len(),
            find_section(views(sections@), kind, 0) == find_section(
                views(sections@),
                kind,
                i as int,
            ),
        decreases sections@.len() - i,
    {
        if sections[i].kind == kind {
            return Some(&sections[i]);
        }
        i = i + 1;
    }
    None
}

/// What the dynamic section names.
struct Dynamic {
    needed: Vec<String>,
    soname: Option<String>,
    rpath: Option<String>,
    runpath: Option<String>,
}

impl View for Dynamic {
    type V = DynamicModel;

    closed spec fn view(&self) -> DynamicModel {
        DynamicModel {
            needed: texts(self.needed@),
            soname: text_of(self.soname),
            rpath: text_of(self.rpath),
            runpath: text_of(self.runpath),
        }
    }
}

/// A string that a dynamic entry refers to.
fn entry_string(strtab: &[u8], val: u64, what: &'static str) -> (r: Result<String, ElfError>)
    ensures
        text_result(r) == dynamic_string(strtab@, val, what),
{
    if val <= u32::MAX as u64 {
        cstr(strtab, val as u32, what)
    } else {
        Err(ElfError::UnterminatedString { what, offset: val })
    }
}

/// Reads the dynamic section, up to its `DT_NULL` entry.
fn parse_dynamic(r: &Reader, sections: &[Section]) -> (res: Result<Dynamic, ElfError>)
    ensures
        match res {
            Ok(d) => dynamic(r@, views(sections@)) == Ok::<_, ElfError>(d@),
            Err(e) => dynamic(r@, views(sections@)) == Err::<DynamicModel, _>(e),
        },
{
    let mut found = Dynamic { needed: Vec::new(), soname: None, rpath: None, runpath: None };
    assert(found@.needed =~= no_dynamic().needed);
    let Some(section) = section_of_kind(sections, SHT_DYNAMIC) else {
        return Ok(found);
    };
    let data = section_data(r, section, ".dynamic")?;
    let strtab_section = section_at(sections, section.link as u64, ".dynamic sh_link")?;
    let strtab = section_data(r, strtab_section, ".dynamic string table")?;
    let d = r.with_data(data);
    let w: u64 = d.word_size();
    let count: u64 = data.len() as u64 / (2 * w);
    let mut i: u64 = 0;
    while i < count
        invariant
            i <= count,
            data@.len() <= u64::MAX,
            d@ == r@.over(data@),
            w == d@.word_size(),
            count == data@.len() as int / (2 * w as int),
            dynamic(r@, views(sections@)) == dynamic_from(d@, strtab@, 0, no_dynamic()),
            dynamic(r@, views(sections@)) == dynamic_from(d@, strtab@, i as int, found@),
        decreases count - i,
    {
        proof {
            assert(i * 2 * w + 2 * w <= data@.len()) by (nonlinear_arith)
                requires
                    i + 1 <= count,
                    w == 4 || w == 8,
                    count == data@.len() as int / (2 * w as int),
            ;
            assert(i * 2 * w >= 0) by (nonlinear_arith)
                requires
                    w == 4 || w == 8,
                    i >= 0,
            ;
            assert(i * 2 <= i * 2 * w) by (nonlinear_arith)
                requires
                    w == 4 || w == 8,
                    i >= 0,
            ;
        }
        let tag: u64 = d.word(i * 2 * w, "d_tag")?;
        let val: u64 = d.word(i * 2 * w + w, "d_val")?;
        if tag == DT_NULL {
            return Ok(found);
        } else if tag == DT_NEEDED {
            let s = entry_string(strtab, val, "DT_NEEDED")?;
            let ghost before = found@;
            found.needed.push(s);
            assert(found@.needed =~= before.needed.push(s@));
        } else if tag == DT_SONAME {
            found.soname = Some(entry_string(strtab, val, "DT_SONAME")?);
        } else if tag == DT_RPATH {
            found.rpath = Some(entry_string(strtab, val, "DT_RPATH")?);
        } else if tag == DT_RUNPATH {
            found.runpath = Some(entry_string(strtab, val, "DT_RUNPATH")?);
        }
        i = i + 1;
    }
    Ok(found)
}

/// Version index to version name and, for imports, the providing file.
type VersionTable = HashMap<u16, (String, Option<String>)>;

/// The table's entries as text.
spec fn versions_of(table: VersionTable) -> Versions {
    table@.map_values(|p: (String, Option<String>)| (p.0@, text_of(p.1)))
}

/// Adds one entry to the table.
fn add_version(table: &mut VersionTable, index: u16, name: String, file: Option<String>)
    ensures
        versions_of(*final(table)) == versions_of(*old(table)).insert(index, (name@, text_of(file))),
{
    broadcast use vstd::std_specs::hash::group_hash_axioms;

    table.insert(index, (name, file));
    assert(versions_of(*table) =~= versions_of(*old(table)).insert(index, (name@, text_of(file))));
}

/// Reads the auxiliary records of one version-need record.
fn parse_vernaux(
    d: &Reader,
    names: &[u8],
    file: &String,
    first: u64,
    count: u64,
    out: &mut VersionTable,
) -> (res: Result<(), ElfError>)
    ensures
        match res {
            Ok(_) => vernaux_from(d@, names@, file@, first, count as nat, versions_of(*old(out)))
                == Ok::<_, ElfError>(versions_of(*final(out))),
            Err(e) => vernaux_from(d@, names@, file@, first, count as nat, versions_of(*old(out)))
                == Err::<Versions, _>(e),
        },
{
    let mut aux: u64 = first;
    let mut left: u64 = count;
    while left > 0
        invariant
            vernaux_from(d@, names@, file@, first, count as nat, versions_of(*old(out)))
                == vernaux_from(d@, names@, file@, aux, left as nat, versions_of(*out)),
        decreases left,
    {
        let other: u16 = u16_field(d, aux, 6, "vna_other")?;
        let name_off: u32 = u32_field(d, aux, 8, "vna_name")?;
        let next: u32 = u32_field(d, aux, 12, "vna_next")?;
        let name = cstr(names, name_off, "vna_name")?;
        add_version(out, other & 0x7fff, name, Some(file.clone()));
        if next == 0 {
            return Ok(());
        }
        aux = offset_sum(aux, next as u64, "vna_next")?;
        left = left - 1;
    }
    Ok(())
}

fn smaller(a: u64, b: u64) -> (r: u64)
    ensures
        r == at_most(a as nat, b as nat),
{
    if a <= b {
        a
    } else {
        b
    }
}

/// Reads version-need records along their chain.
fn parse_verneed(d: &Reader, count: u32, names: &[u8], out: &mut VersionTable) -> (res: Result<
    (),
    ElfError,
>)
    ensures
        match res {
            Ok(_) => verneed_from(
                d@,
                names@,
                0,
                at_most(count as nat, verneed_limit(d@)),
                versions_of(*old(out)),
            ) == Ok::<_, ElfError>(versions_of(*final(out))),
            Err(e) => verneed_from(
                d@,
                names@,
                0,
                at_most(count as nat, verneed_limit(d@)),
                versions_of(*old(out)),
            ) == Err::<Versions, _>(e),
        },
{
    // Each record is at least 16 bytes, so this caps the walk even when the
    // vn_next chain is crafted to revisit the section.
    let limit: u64 = d.data.len() as u64 / 16 + 1;
    let mut off: u64 = 0;
    let mut left: u64 = smaller(count as u64, limit);
    let ghost whole = verneed_from(d@, names@, 0, left as nat, versions_of(*old(out)));
    while left > 0
        invariant
            limit == verneed_limit(d@),
            whole == verneed_from(d@, names@, off, left as nat, versions_of(*out)),
            whole == verneed_from(
                d@,
                names@,
                0,
                at_most(count as nat, verneed_limit(d@)),
                versions_of(*old(out)),
            ),
        decreases left,
    {
        let aux_count: u16 = u16_field(d, off, 2, "vn_cnt")?;
        let file = cstr(names, u32_field(d, off, 4, "vn_file")?, "vn_file")?;
        let aux_off: u32 = u32_field(d, off, 8, "vn_aux")?;
        let next: u32 = u32_field(d, off, 12, "vn_next")?;
        let aux: u64 = offset_sum(off, aux_off as u64, "vn_aux")?;
        parse_vernaux(d, names, &file, aux, smaller(aux_count as u64, limit), out)?;
        if next == 0 {
            return Ok(());
        }
        off = offset_sum(off, next as u64, "vn_next")?;
        left = left - 1;
    }
    Ok(())
}

/// Reads version-definition records along their chain.
fn parse_verdef(d: &Reader, count: u32, names: &[u8], out: &mut VersionTable) -> (res: Result<
    (),
    ElfError,
>)
    ensures
        match res {
            Ok(_) => verdef_from(
                d@,
                names@,
                0,
                at_most(count as nat, verdef_limit(d@)),
                versions_of(*old(out)),
            ) == Ok::<_, ElfError>(versions_of(*final(out))),
            Err(e) => verdef_from(
                d@,
                names@,
                0,
                at_most(count as nat, verdef_limit(d@)),
                versions_of(*old(out)),
            ) == Err::<Versions, _>(e),
        },
{
    let limit: u64 = d.data.len() as u64 / 20 + 1;
    let mut off: u64 = 0;
    let mut left: u64 = smaller(count as u64, limit);
    let ghost whole = verdef_from(d@, names@, 0, left as nat, versions_of(*old(out)));
    while left > 0
        invariant
            whole == verdef_from(d@, names@, off, left as nat, versions_of(*out)),
            whole == verdef_from(
                d@,
                names@,
                0,
                at_most(count as nat, verdef_limit(d@)),
                versions_of(*old(out)),
            ),
        decreases left,
    {
        let index: u16 = u16_field(d, off, 4, "vd_ndx")?;
        let aux_count: u16 = u16_field(d, off, 6, "vd_cnt")?;
        let aux_off: u32 = u32_field(d, off, 12, "vd_aux")?;
        let next: u32 = u32_field(d, off, 16, "vd_next")?;
        // The first verdaux names the version; later ones name its parents.
        if aux_count > 0 {
            let aux: u64 = offset_sum(off, aux_off as u64, "vd_aux")?;
            let name_off: u32 = d.u32(aux, "vda_name")?;
            let name = cstr(names, name_off, "vda_name")?;
            add_version(out, index & 0x7fff, name, None);
        }
        if next == 0 {
            return Ok(());
        }
        off = offset_sum(off, next as u64, "vd_next")?;
        left = left - 1;
    }
    Ok(())
}

/// Collects the versions of all version sections.
fn parse_versions(r: &Reader, sections: &[Section]) -> (res: Result<VersionTable, ElfError>)
    ensures
        match res {
            Ok(t) => versions_from(r@, views(sections@), 0, Map::empty()) == Ok::<_, ElfError>(
                versions_of(t),
            ),
            Err(e) => versions_from(r@, views(sections@), 0, Map::empty()) == Err::<Versions, _>(e),
        },
{
    let mut table: VersionTable = HashMap::new();
    assert(versions_of(table) =~= Map::empty());
    let mut i: usize = 0;
    while i < sections.len()
        invariant
            i <= sections@.len(),
            versions_from(r@, views(sections@), 0, Map::empty()) == versions_from(
                r@,
                views(sections@),
                i as int,
                versions_of(table),
            ),
        decreases sections@.len() - i,
    {
        let s = &sections[i];
        assert(views(sections@)[i as int] == s@);
        if s.kind == SHT_GNU_VERNEED || s.kind == SHT_GNU_VERDEF {
            let body = section_data(r, s, "version section")?;
            let names_section = section_at(sections, s.link as u64, "version sh_link")?;
            let names = section_data(r, names_section, "version string table")?;
            if s.kind == SHT_GNU_VERNEED {
                parse_verneed(&r.with_data(body), s.info, names, &mut table)?;
            } else {
                parse_verdef(&r.with_data(body), s.info, names, &mut table)?;
            }
        }
        i = i + 1;
    }
    Ok(table)
}

/// The version that a `.gnu.version` entry selects.
fn select_version(raw: u16, table: &VersionTable) -> (res: Option<SymbolVersion>)
    ensures
        version_view(res) == selected_version(raw, versions_of(*table)),
{
    broadcast use vstd::std_specs::hash::group_hash_axioms;

    let index: u16 = raw & 0x7fff;
    // Indices 0 and 1 mean "local" and "global, unversioned".
    if index < 2 {
        return None;
    }
    match table.get(&index) {
        Some((name, file)) => {
            let file = match file {
                Some(f) => Some(f.clone()),
                None => None,
            };
            Some(SymbolVersion { name: name.clone(), file, hidden: raw & 0x8000 != 0 })
        },
        None => None,
    }
}

/// Reads the symbol-table entry at an offset.
fn read_symbol_entry(d: &Reader, off: u64) -> (res: Result<SymbolEntry, ElfError>)
    requires
        d@.fits(off as int, symbol_size(d@.class) as int),
    ensures
        res == Ok::<SymbolEntry, ElfError>(symbol_entry(d@, off as int)),
{
    let total: usize = d.data.len();
    assert(off + symbol_size(d@.class) <= total);
    match d.class {
        Class::Elf32 => Ok(
            SymbolEntry {
                name: d.u32(off, "st_name")?,
                value: d.u32(off + 4, "st_value")? as u64,
                size: d.u32(off + 8, "st_size")? as u64,
                info: d.u8(off + 12, "st_info")?,
                section_index: d.u16(off + 14, "st_shndx")?,
            },
        ),
        Class::Elf64 => Ok(
            SymbolEntry {
                name: d.u32(off, "st_name")?,
                value: d.u64(off + 8, "st_value")?,
                size: d.u64(off + 16, "st_size")?,
                info: d.u8(off + 4, "st_info")?,
                section_index: d.u16(off + 6, "st_shndx")?,
            },
        ),
    }
}

/// The version of the `i`th symbol, when `.gnu.version` covers it.
fn version_of_symbol(r: &Reader, versym: Option<&[u8]>, table: &VersionTable, i: u64) -> (res:
    Result<Option<SymbolVersion>, ElfError>)
    requires
        i < u64::MAX / 2,
    ensures
        match res {
            Ok(v) => version_view(v) == symbol_version(
                r@,
                versym_view(versym),
                versions_of(*table),
                i as int,
            ),
            Err(_) => false,
        },
{
    match versym {
        Some(v) => {
            if (i + 1) * 2 <= v.len() as u64 {
                let raw: u16 = r.with_data(v).u16(i * 2, ".gnu.version entry")?;
                Ok(select_version(raw, table))
            } else {
                Ok(None)
            }
        },
        None => Ok(None),
    }
}

/// Reads the dynamic symbol table with its versions.
fn parse_dynsym(r: &Reader, sections: &[Section]) -> (res: Result<Vec<Symbol>, ElfError>)
    ensures
        match res {
            Ok(symbols) => dynsym(r@, views(sections@)) == Ok::<_, ElfError>(views(symbols@)),
            Err(e) => dynsym(r@, views(sections@)) == Err::<Seq<SymbolModel>, _>(e),
        },
{
    let mut symbols: Vec<Symbol> = Vec::new();
    assert(views(symbols@) =~= Seq::<SymbolModel>::empty());
    let Some(symtab) = section_of_kind(sections, SHT_DYNSYM) else {
        return Ok(symbols);
    };
    let data = section_data(r, symtab, ".dynsym")?;
    let strtab_section = section_at(sections, symtab.link as u64, ".dynsym sh_link")?;
    let strtab = section_data(r, strtab_section, ".dynsym string table")?;
    let versym: Option<&[u8]> = match section_of_kind(sections, SHT_GNU_VERSYM) {
        Some(s) => Some(section_data(r, s, ".gnu.version")?),
        None => None,
    };
    let table = parse_versions(r, sections)?;
    let d = r.with_data(data);
    let entsize: u64 = match r.class {
        Class::Elf32 => 16,
        Class::Elf64 => 24,
    };
    let count: u64 = data.len() as u64 / entsize;
    let mut i: u64 = 1;
    while i < count
        invariant
            1 <= i,
            data@.len() <= u64::MAX,
            d@ == r@.over(data@),
            entsize == symbol_size(d@.class),
            count == data@.len() as int / entsize as int,
            dynsym(r@, views(sections@)) == symbols_from(
                d@,
                strtab@,
                versym_view(versym),
                versions_of(table),
                i as int,
                views(symbols@),
            ),
        decreases count - i,
    {
        proof {
            assert(i * entsize + entsize <= data@.len() && i <= i * entsize && count * 16
                <= data@.len()) by (nonlinear_arith)
                requires
                    1 <= i < count,
                    entsize == 16 || entsize == 24,
                    count == data@.len() as int / entsize as int,
            ;
        }
        let entry = read_symbol_entry(&d, i * entsize)?;
        let version = version_of_symbol(&d, versym, &table, i)?;
        let symbol = Symbol {
            name: cstr(strtab, entry.name, "symbol name")?,
            binding: Binding::from_raw(entry.info >> 4),
            kind: SymbolType::from_raw(entry.info & 0xf),
            section_index: entry.section_index,
            value: entry.value,
            size: entry.size,
            version,
        };
        let ghost before = views(symbols@);
        symbols.push(symbol);
        assert(views(symbols@) =~= before.push(symbol@));
        i = i + 1;
    }
    Ok(symbols)
}

/// Whether bytes are long enough and printable.
fn is_string(piece: &[u8]) -> (r: bool)
    ensures
        r == (piece@.len() >= min_string_len() && forall|j: int|
            0 <= j < piece@.len() ==> is_printable(#[trigger] piece@[j])),
{
    if piece.len() < 4 {
        return false;
    }
    let mut i: usize = 0;
    while i < piece.len()
        invariant
            i <= piece@.len(),
            forall|j: int| 0 <= j < i ==> is_printable(#[trigger] piece@[j]),
        decreases piece@.len() - i,
    {
        if piece[i] < 0x20 || piece[i] >= 0x7f {
            assert(!is_printable(piece@[i as int]));
            return false;
        }
        i = i + 1;
    }
    true
}

/// What the NUL at `i`, with the one before it just ahead of `start`, adds.
proof fn lemma_next_string(data: Seq<u8>, start: int, i: int)
    requires
        0 <= start <= i < data.len(),
        data[i] == 0,
        start == 0 || data[start - 1] == 0,
        forall|j: int| start <= j < i ==> data[j] != 0,
    ensures
        string_between(data, start, i) ==> strings_before(data, i + 1) == strings_before(
            data,
            i,
        ).insert(ascii(data.subrange(start, i))),
        !string_between(data, start, i) ==> strings_before(data, i + 1) == strings_before(data, i),
{
    let old_set = strings_before(data, i);
    let new_set = strings_before(data, i + 1);
    assert forall|a: int| #[trigger] string_between(data, a, i) implies a == start by {
        if a > start {
            assert(data[a - 1] != 0);
        } else if a < start {
            assert(is_printable(data[start - 1]));
        }
    }
    if string_between(data, start, i) {
        let s = ascii(data.subrange(start, i));
        assert forall|t: Seq<char>| new_set.contains(t) == old_set.insert(s).contains(t) by {
            if new_set.contains(t) {
                let (a, b) = choose|a: int, b: int|
                    #[trigger] string_between(data, a, b) && b < i + 1 && t == ascii(
                        data.subrange(a, b),
                    );
                if b == i {
                    assert(a == start);
                }
            }
        }
        assert(new_set =~= old_set.insert(s));
    } else {
        assert forall|t: Seq<char>| new_set.contains(t) == old_set.contains(t) by {
            if new_set.contains(t) {
                let (a, b) = choose|a: int, b: int|
                    #[trigger] string_between(data, a, b) && b < i + 1 && t == ascii(
                        data.subrange(a, b),
                    );
                if b == i {
                    assert(a == start);
                }
            }
        }
        assert(new_set =~= old_set);
    }
}

/// Adds the strings stored in some bytes. Bytes after the last NUL have no
/// terminator, so they are not a C string.
fn collect_strings(data: &[u8], found: &mut Vec<String>)
    requires
        ascending::<String>(views(old(found)@)),
    ensures
        ascending::<String>(views(final(found)@)),
        views(final(found)@).to_set() == views(old(found)@).to_set().union(strings_in(data@)),
{
    let ghost base = views(found@).to_set();
    let mut start: usize = 0;
    let mut i: usize = 0;
    assert(base.union(strings_before(data@, 0)) =~= base);
    while i < data.len()
        invariant
            start <= i <= data@.len(),
            start == 0 || data@[start - 1] == 0,
            forall|j: int| start <= j < i ==> data@[j] != 0,
            ascending::<String>(views(found@)),
            views(found@).to_set() == base.union(strings_before(data@, i as int)),
        decreases data@.len() - i,
    {
        if data[i] == 0 {
            let piece = slice_subrange(data, start, i);
            let keep = is_string(piece);
            proof {
                lemma_next_string(data@, start as int, i as int);
                assert(keep == string_between(data@, start as int, i as int)) by {
                    if keep {
                        assert forall|j: int| start <= j < i implies is_printable(
                            #[trigger] data@[j],
                        ) by {
                            assert(piece@[j - start] == data@[j]);
                        }
                    } else if string_between(data@, start as int, i as int) {
                        assert forall|j: int| 0 <= j < piece@.len() implies is_printable(
                            #[trigger] piece@[j],
                        ) by {
                            assert(piece@[j] == data@[start + j]);
                        }
                    }
                }
            }
            if keep {
                let s = ascii_string(piece);
                insert_unique(found, s);
                assert(base.union(strings_before(data@, i as int)).insert(s@) =~= base.union(
                    strings_before(data@, i as int).insert(s@),
                ));
            }
            start = i + 1;
        } else {
            assert(strings_before(data@, i + 1) =~= strings_before(data@, i as int));
        }
        i = i + 1;
    }
    assert(strings_before(data@, data@.len() as int) =~= strings_in(data@));
}

/// The printable strings of all read-only data sections.
fn collect_rodata_strings(r: &Reader, sections: &[Section]) -> (res: Result<Vec<String>, ElfError>)
    ensures
        match res {
            Ok(v) => rodata_strings(r@, views(sections@)) == Ok::<_, ElfError>(texts(v@)),
            Err(e) => rodata_strings(r@, views(sections@)) == Err::<Seq<Seq<char>>, _>(e),
        },
{
    let mut found: Vec<String> = Vec::new();
    let mut i: usize = 0;
    assert(views(found@).to_set() =~= Set::<Seq<char>>::empty());
    while i < sections.len()
        invariant
            i <= sections@.len(),
            ascending::<String>(views(found@)),
            strings_from(r@, views(sections@), 0, Set::empty()) == strings_from(
                r@,
                views(sections@),
                i as int,
                views(found@).to_set(),
            ),
        decreases sections@.len() - i,
    {
        let s = &sections[i];
        assert(views(sections@)[i as int] == s@);
        if s.kind == SHT_PROGBITS && s.flags & SHF_ALLOC != 0 && s.flags & (SHF_WRITE
            | SHF_EXECINSTR) == 0 {
            let data = section_data(r, s, "read-only data section")?;
            collect_strings(data, &mut found);
        }
        i = i + 1;
    }
    proof {
        lemma_in_order::<String>(views(found@));
        lemma_texts_are_views(found@);
    }
    Ok(found)
}

/// A parsed file that may have failed to be read.
pub open spec fn file_result(r: Result<ElfFile, ElfError>) -> Result<ElfModel, ElfError> {
    match r {
        Ok(f) => Ok(f@),
        Err(e) => Err(e),
    }
}

/// Whether a file starts with the ELF magic bytes.
pub fn looks_like_elf(data: &[u8]) -> (r: bool)
    ensures
        r == has_magic(data@),
{
    data.len() >= 4 && data[0] == 0x7f && data[1] == 0x45 && data[2] == 0x4c && data[3] == 0x46
}

fn parse(data: &[u8]) -> (res: Result<ElfFile, ElfError>)
    ensures
        file_result(res) == elf_model(data@),
{
    if !looks_like_elf(data) {
        return Err(ElfError::NotElf);
    }
    if data.len() < 16 {
        return Err(ElfError::Truncated { what: "e_ident", offset: 0, len: 16 });
    }
    let class = match data[4] {
        1 => Class::Elf32,
        2 => Class::Elf64,
        other => return Err(ElfError::UnsupportedClass(other)),
    };
    let endian = match data[5] {
        1 => Endian::Little,
        2 => Endian::Big,
        other => return Err(ElfError::UnsupportedEncoding(other)),
    };
    let r = Reader { data, endian, class };
    proof {
        reveal(image_model);
    }
    let header_size: u64 = 16 + 36 + 3 * (r.word_size() - 4);
    let _ = r.bytes(0, header_size, "ELF header")?;
    let h = read_header(&r)?;
    let (raw, zero) = read_sections(&r, &h)?;
    let segments = read_segments(&r, &h, &zero)?;
    let sections = name_sections(&r, &h, &zero, raw)?;
    let interpreter = read_interpreter(&r, &segments)?;
    let dynamic = parse_dynamic(&r, &sections)?;
    let symbols = parse_dynsym(&r, &sections)?;
    let rodata_strings = collect_rodata_strings(&r, &sections)?;
    Ok(
        ElfFile {
            class,
            endian,
            file_type: h.file_type,
            machine: h.machine,
            interpreter,
            segments,
            sections,
            needed: dynamic.needed,
            soname: dynamic.soname,
            rpath: dynamic.rpath,
            runpath: dynamic.runpath,
            symbols,
            rodata_strings,
        },
    )
}

impl ElfFile {
    /// Parse an ELF32 or ELF64 image of either byte order.
    pub fn parse(data: &[u8]) -> (res: Result<ElfFile, ElfError>)
        ensures
            file_result(res) == elf_model(data@),
    {
        self::parse(data)
    }

    /// Executables are what ld.so starts from: `ET_EXEC`, or a PIE (`ET_DYN`
    /// that requests an interpreter).
    pub fn is_executable(&self) -> (r: bool)
        ensures
            r == self@.is_executable(),
    {
        if self.file_type == ET_EXEC {
            return true;
        }
        if self.file_type != ET_DYN {
            return false;
        }
        let mut i: usize = 0;
        while i < self.segments.len()
            invariant
                i <= self.segments@.len(),
                self.file_type == ET_DYN,
                forall|j: int| 0 <= j < i ==> (#[trigger] self.segments@[j]).kind != PT_INTERP,
            decreases self.segments@.len() - i,
        {
            if self.segments[i].kind == PT_INTERP {
                assert(self@.segments[i as int].kind == PT_INTERP);
                return true;
            }
            i = i + 1;
        }
        false
    }

    /// The symbols this object expects other objects to provide.
    pub fn imports(&self) -> (r: Vec<&Symbol>)
        ensures
            views(r@) == self@.imports(),
    {
        let mut found: Vec<&Symbol> = Vec::new();
        let mut i: usize = 0;
        let ghost all = self@.symbols;
        let ghost wanted = |s: SymbolModel| s.is_import();
        assert(views(found@) =~= all.take(0).filter(wanted));
        while i < self.symbols.len()
            invariant
                i <= self.symbols@.len(),
                all == self@.symbols,
                wanted == (|s: SymbolModel| s.is_import()),
                views(found@) == all.take(i as int).filter(wanted),
            decreases self.symbols@.len() - i,
        {
            let s = &self.symbols[i];
            let ghost before = views(found@);
            if s.is_undefined() && s.name.as_str().unicode_len() > 0 {
                found.push(s);
                assert(views(found@) =~= before.push(s@));
            }
            proof {
                assert(all[i as int] == s@);
                assert(all.take(i + 1) =~= all.take(i as int).push(s@));
                all.take(i as int).lemma_filter_push(s@, wanted);
            }
            i = i + 1;
        }
        assert(all.take(all.len() as int) =~= all);
        found
    }

    pub fn class_name(&self) -> (r: &'static str)
        ensures
            r == class_text(self.class, self.endian),
    {
        match (self.class, self.endian) {
            (Class::Elf32, Endian::Little) => "ELF32-LE",
            (Class::Elf32, Endian::Big) => "ELF32-BE",
            (Class::Elf64, Endian::Little) => "ELF64-LE",
            (Class::Elf64, Endian::Big) => "ELF64-BE",
        }
    }
}

/// The short name of a class and byte order.
pub open spec fn class_text(class: Class, endian: Endian) -> &'static str {
    match (class, endian) {
        (Class::Elf32, Endian::Little) => "ELF32-LE",
        (Class::Elf32, Endian::Big) => "ELF32-BE",
        (Class::Elf64, Endian::Little) => "ELF64-LE",
        (Class::Elf64, Endian::Big) => "ELF64-BE",
    }
}

} // verus!
