//! The round trip of whole files: whatever a linker wrote into the tables of a
//! file, wherever in the file it put them, is what the reader finds there.

use crate::elf::{
    bound, Class, ElfError, Endian, Segment, DT_NEEDED, DT_NULL, DT_RPATH, DT_RUNPATH, DT_SONAME,
    PT_INTERP, SHT_DYNAMIC, SHT_DYNSYM, SHT_GNU_VERDEF, SHT_GNU_VERNEED, SHT_GNU_VERSYM, SHT_NOBITS,
};
use crate::elf_laws::{
    def_versions, defs_written, holds, law_defined_versions_round_trip, law_field_round_trip,
    law_needed_versions_round_trip, law_string_round_trip, law_symbols_round_trip, lemma_text_at,
    lemma_u32_in, need_versions, needs_written, symbols_read, symbols_written, text_at,
    used_versions, WrittenDef, WrittenNeed, WrittenSymbol,
};
use crate::elf_model::{
    dynamic, dynamic_from, dynsym, elf_model, find_section, find_segment, has_magic, header,
    header_size, image_model, interpreter, is_read_only_data, name_table_index, named_from,
    named_sections, no_dynamic, nul_from, program_header, program_header_size, raw_sections,
    rodata_strings, section_data, section_header, section_header_size, section_zero, segment_count,
    segments, strings_from, strings_in, version_section, versions_from, versym_data, word_in,
    DynamicModel, ElfModel, Header, Image, SectionModel, SymbolModel, Versions,
};
use crate::order::in_order;
use vstd::prelude::*;
use vstd::utf8::*;

verus! {

/// An entry of the dynamic section, as a linker writes it.
pub struct WrittenEntry {
    pub tag: u64,
    pub value: u64,
    /// The text at offset `value` of the string table, for the tags that name one.
    pub text: Seq<char>,
}

/// Tags whose value is the offset of a text that the reader keeps.
pub open spec fn names_text(tag: u64) -> bool {
    tag == DT_NEEDED || tag == DT_SONAME || tag == DT_RPATH || tag == DT_RUNPATH
}

/// The bytes of `d` hold these dynamic entries, and `DT_NULL` after them where
/// there is room for more.
pub open spec fn entries_written(d: Image, strtab: Seq<u8>, entries: Seq<WrittenEntry>) -> bool {
    let w = d.word_size() as int;
    &&& entries.len() <= d.data.len() as int / (2 * w)
    &&& entries.len() < d.data.len() as int / (2 * w) ==> holds(
        d,
        entries.len() * 2 * w,
        w as nat,
        DT_NULL as nat,
    )
    &&& forall|k: int|
        0 <= k < entries.len() ==> {
            &&& (#[trigger] entries[k]).tag != DT_NULL
            &&& holds(d, k * 2 * w, w as nat, entries[k].tag as nat)
            &&& holds(d, k * 2 * w + w, w as nat, entries[k].value as nat)
            &&& names_text(entries[k].tag) ==> entries[k].value <= u32::MAX && text_at(
                strtab,
                entries[k].value as int,
                entries[k].text,
            )
        }
}

/// The texts of the entries with a tag, in order.
pub open spec fn texts_with(entries: Seq<WrittenEntry>, tag: u64) -> Seq<Seq<char>>
    decreases entries.len(),
{
    if entries.len() == 0 {
        Seq::empty()
    } else if entries.last().tag == tag {
        texts_with(entries.drop_last(), tag).push(entries.last().text)
    } else {
        texts_with(entries.drop_last(), tag)
    }
}

/// The text of the last entry with a tag.
pub open spec fn last_text(entries: Seq<WrittenEntry>, tag: u64) -> Option<Seq<char>> {
    if texts_with(entries, tag).len() == 0 {
        None
    } else {
        Some(texts_with(entries, tag).last())
    }
}

/// What dynamic entries say: every needed library, and the last of each other text.
pub open spec fn entries_read(entries: Seq<WrittenEntry>) -> DynamicModel {
    DynamicModel {
        needed: texts_with(entries, DT_NEEDED),
        soname: last_text(entries, DT_SONAME),
        rpath: last_text(entries, DT_RPATH),
        runpath: last_text(entries, DT_RUNPATH),
    }
}

proof fn lemma_word(d: Image, at: int, v: nat)
    requires
        holds(d, at, d.word_size() as nat, v),
    ensures
        v <= u64::MAX,
        d.word_field(at) == v,
        d.fits(at, d.word_size() as int),
{
    law_field_round_trip(d, at, d.word_size() as nat, v);
    reveal_with_fuel(bound, 9);
}

proof fn lemma_entries(d: Image, strtab: Seq<u8>, entries: Seq<WrittenEntry>, i: int)
    requires
        entries_written(d, strtab, entries),
        0 <= i <= entries.len(),
    ensures
        dynamic_from(d, strtab, i, entries_read(entries.take(i))) == Ok::<DynamicModel, ElfError>(
            entries_read(entries),
        ),
    decreases entries.len() - i,
{
    let w = d.word_size() as int;
    let found = entries_read(entries.take(i));
    if i == entries.len() {
        assert(entries.take(i) =~= entries);
        if i < d.data.len() as int / (2 * w) {
            lemma_word(d, i * 2 * w, DT_NULL as nat);
        }
    } else {
        let e = entries[i];
        lemma_word(d, i * 2 * w, e.tag as nat);
        lemma_word(d, i * 2 * w + w, e.value as nat);
        assert(entries.take(i + 1).drop_last() =~= entries.take(i));
        assert(entries.take(i + 1).last() == e);
        if names_text(e.tag) {
            law_string_round_trip(strtab, e.value as u32, e.text, "DT_NEEDED");
            law_string_round_trip(strtab, e.value as u32, e.text, "DT_SONAME");
            law_string_round_trip(strtab, e.value as u32, e.text, "DT_RPATH");
            law_string_round_trip(strtab, e.value as u32, e.text, "DT_RUNPATH");
        }
        lemma_entries(d, strtab, entries, i + 1);
    }
}

/// Every needed library, and the name and search paths of an object, that were
/// written into its dynamic section are read back.
pub proof fn law_dynamic_entries_round_trip(
    d: Image,
    strtab: Seq<u8>,
    entries: Seq<WrittenEntry>,
)
    requires
        entries_written(d, strtab, entries),
    ensures
        dynamic_from(d, strtab, 0, no_dynamic()) == Ok::<DynamicModel, ElfError>(
            entries_read(entries),
        ),
{
    lemma_entries(d, strtab, entries, 0);
    assert(entries.take(0) =~= Seq::empty());
    assert(entries_read(entries.take(0)) == no_dynamic());
}

/// The bytes at `at` are the header of a section whose name is at an offset of the
/// name table.
pub open spec fn section_written(img: Image, at: int, name: u32, s: SectionModel) -> bool {
    let w = img.word_size() as int;
    &&& holds(img, at, 4, name as nat)
    &&& holds(img, at + 4, 4, s.kind as nat)
    &&& holds(img, at + 8, w as nat, s.flags as nat)
    &&& holds(img, at + 8 + w, w as nat, s.addr as nat)
    &&& holds(img, at + 8 + 2 * w, w as nat, s.offset as nat)
    &&& holds(img, at + 8 + 3 * w, w as nat, s.size as nat)
    &&& holds(img, at + 8 + 4 * w, 4, s.link as nat)
    &&& holds(img, at + 12 + 4 * w, 4, s.info as nat)
    &&& holds(img, at + 16 + 5 * w, w as nat, s.entsize as nat)
}

/// A section that has no name yet.
pub open spec fn bare(s: SectionModel) -> SectionModel {
    SectionModel { name: Seq::empty(), ..s }
}

proof fn lemma_word_in(d: Image, off: int, delta: u64, v: nat, what: &'static str)
    requires
        d.data.len() <= u64::MAX,
        0 <= off,
        holds(d, off + delta, d.word_size() as nat, v),
    ensures
        off + delta <= u64::MAX,
        v <= u64::MAX,
        word_in(d, off as u64, delta, what) == Ok::<u64, ElfError>(v as u64),
{
    lemma_word(d, off + delta, v);
}

/// A section header that was written is read back.
pub proof fn law_section_header_round_trip(img: Image, at: int, name: u32, s: SectionModel)
    requires
        img.data.len() <= u64::MAX,
        section_written(img, at, name, s),
    ensures
        0 <= at <= u64::MAX,
        section_header(img, at as u64) == Ok::<(u32, SectionModel), ElfError>((name, bare(s))),
{
    let w = img.word_size();
    lemma_u32_in(img, at, 0, name as nat, "sh_name");
    lemma_u32_in(img, at, 4, s.kind as nat, "sh_type");
    lemma_word_in(img, at, 8, s.flags as nat, "sh_flags");
    lemma_word_in(img, at, (8 + w) as u64, s.addr as nat, "sh_addr");
    lemma_word_in(img, at, (8 + 2 * w) as u64, s.offset as nat, "sh_offset");
    lemma_word_in(img, at, (8 + 3 * w) as u64, s.size as nat, "sh_size");
    lemma_u32_in(img, at, (8 + 4 * w) as u64, s.link as nat, "sh_link");
    lemma_u32_in(img, at, (12 + 4 * w) as u64, s.info as nat, "sh_info");
    lemma_word_in(img, at, (16 + 5 * w) as u64, s.entsize as nat, "sh_entsize");
}

/// The bytes at `at` are the header of a segment.
pub open spec fn segment_written(img: Image, at: int, s: Segment) -> bool {
    match img.class {
        Class::Elf32 => {
            &&& holds(img, at, 4, s.kind as nat)
            &&& holds(img, at + 4, 4, s.offset as nat)
            &&& holds(img, at + 8, 4, s.vaddr as nat)
            &&& holds(img, at + 16, 4, s.filesz as nat)
            &&& holds(img, at + 20, 4, s.memsz as nat)
            &&& holds(img, at + 24, 4, s.flags as nat)
        },
        Class::Elf64 => {
            &&& holds(img, at, 4, s.kind as nat)
            &&& holds(img, at + 4, 4, s.flags as nat)
            &&& holds(img, at + 8, 8, s.offset as nat)
            &&& holds(img, at + 16, 8, s.vaddr as nat)
            &&& holds(img, at + 32, 8, s.filesz as nat)
            &&& holds(img, at + 40, 8, s.memsz as nat)
        },
    }
}

/// A program header that was written is read back.
pub proof fn law_program_header_round_trip(img: Image, at: int, s: Segment)
    requires
        segment_written(img, at, s),
    ensures
        program_header(img, at) == s,
{
    reveal_with_fuel(bound, 5);
    match img.class {
        Class::Elf32 => {
            law_field_round_trip(img, at, 4, s.kind as nat);
            law_field_round_trip(img, at + 4, 4, s.offset as nat);
            law_field_round_trip(img, at + 8, 4, s.vaddr as nat);
            law_field_round_trip(img, at + 16, 4, s.filesz as nat);
            law_field_round_trip(img, at + 20, 4, s.memsz as nat);
            law_field_round_trip(img, at + 24, 4, s.flags as nat);
        },
        Class::Elf64 => {
            law_field_round_trip(img, at, 4, s.kind as nat);
            law_field_round_trip(img, at + 4, 4, s.flags as nat);
            law_field_round_trip(img, at + 8, 8, s.offset as nat);
            law_field_round_trip(img, at + 16, 8, s.vaddr as nat);
            law_field_round_trip(img, at + 32, 8, s.filesz as nat);
            law_field_round_trip(img, at + 40, 8, s.memsz as nat);
        },
    }
}

/// What a linker puts into a section that the reader looks into.
pub enum Content {
    Entries(Seq<WrittenEntry>),
    Symbols(Seq<WrittenSymbol>),
    Needs(Seq<WrittenNeed>),
    Defs(Seq<WrittenDef>),
    Other,
}

/// A section, as a linker writes it.
pub struct WrittenSection {
    /// Offset of the name in the section name table.
    pub name: u32,
    pub section: SectionModel,
    pub content: Content,
}

/// A file, as a linker writes it.
pub struct WrittenFile {
    pub class: Class,
    pub endian: Endian,
    pub file_type: u16,
    pub machine: u16,
    /// Where the program headers and the section headers are.
    pub phoff: u64,
    pub shoff: u64,
    /// How far apart the headers are.
    pub phentsize: u16,
    pub shentsize: u16,
    pub segments: Seq<Segment>,
    pub sections: Seq<WrittenSection>,
    /// Index of the section name table; 0 when there is none.
    pub names: u32,
    pub interpreter: Option<Seq<char>>,
}

/// The bytes of a section in its file; `SHT_NOBITS` sections occupy none.
pub open spec fn bytes_in(data: Seq<u8>, s: SectionModel) -> Seq<u8> {
    if s.kind == SHT_NOBITS {
        Seq::empty()
    } else {
        data.subrange(s.offset as int, s.offset + s.size)
    }
}

/// The first section of a kind, from the `i`th on.
pub open spec fn first_of(sections: Seq<WrittenSection>, kind: u32, i: int) -> Option<
    WrittenSection,
>
    decreases sections.len() - i,
{
    if i >= sections.len() {
        None
    } else if sections[i].section.kind == kind {
        Some(sections[i])
    } else {
        first_of(sections, kind, i + 1)
    }
}

/// A table with the versions that a section adds to it.
pub open spec fn versions_added(c: Content, table: Versions) -> Versions {
    match c {
        Content::Needs(needs) => need_versions(needs, 0, table),
        Content::Defs(defs) => def_versions(defs, 0, table),
        _ => table,
    }
}

/// A table with the versions that the sections from the `i`th on add to it.
pub open spec fn versions_written(
    sections: Seq<WrittenSection>,
    i: int,
    table: Versions,
) -> Versions
    decreases sections.len() - i,
{
    if i >= sections.len() {
        table
    } else {
        versions_written(sections, i + 1, versions_added(sections[i].content, table))
    }
}

impl WrittenFile {
    pub open spec fn image(self, data: Seq<u8>) -> Image {
        Image { data, class: self.class, endian: self.endian }
    }

    /// The count of sections goes into section 0 where it is too large for the
    /// file header.
    pub open spec fn shnum(self) -> nat {
        if self.sections.len() < 0xff00 {
            self.sections.len()
        } else {
            0
        }
    }

    /// So does the index of the name table.
    pub open spec fn shstrndx(self) -> nat {
        if self.names < 0xff00 {
            self.names as nat
        } else {
            0xffff
        }
    }

    /// And so does the count of segments.
    pub open spec fn phnum(self) -> nat {
        if self.segments.len() < 0xffff {
            self.segments.len()
        } else {
            0xffff
        }
    }

    /// Section 0 holds what did not fit the file header.
    pub open spec fn counts_fit(self) -> bool {
        let zero = self.sections[0].section;
        &&& self.sections.len() >= 0xff00 ==> zero.size == self.sections.len()
        &&& self.names >= 0xff00 ==> zero.link == self.names && self.sections.len() > 0
        &&& self.segments.len() >= 0xffff ==> zero.info == self.segments.len()
            && self.sections.len() > 0
    }

    /// The bytes start with the file header.
    pub open spec fn header_written(self, data: Seq<u8>) -> bool {
        let img = self.image(data);
        let w = img.word_size() as int;
        &&& has_magic(data)
        &&& header_size(img) <= data.len() <= u64::MAX
        &&& data[4] == (match self.class {
            Class::Elf32 => 1u8,
            Class::Elf64 => 2u8,
        })
        &&& data[5] == (match self.endian {
            Endian::Little => 1u8,
            Endian::Big => 2u8,
        })
        &&& holds(img, 16, 2, self.file_type as nat)
        &&& holds(img, 18, 2, self.machine as nat)
        &&& holds(img, 24 + w, w as nat, self.phoff as nat)
        &&& holds(img, 24 + 2 * w, w as nat, self.shoff as nat)
        &&& holds(img, 30 + 3 * w, 2, self.phentsize as nat)
        &&& holds(img, 32 + 3 * w, 2, self.phnum())
        &&& holds(img, 34 + 3 * w, 2, self.shentsize as nat)
        &&& holds(img, 36 + 3 * w, 2, self.shnum())
        &&& holds(img, 38 + 3 * w, 2, self.shstrndx())
    }

    /// The two header tables are in the file.
    pub open spec fn tables_written(self, data: Seq<u8>) -> bool {
        let img = self.image(data);
        &&& self.counts_fit()
        &&& (self.sections.len() == 0) == (self.shoff == 0)
        &&& self.sections.len() > 0 ==> section_header_size(img) <= self.shentsize && self.shoff
            + self.sections.len() * self.shentsize <= data.len()
        &&& forall|i: int|
            0 <= i < self.sections.len() ==> section_written(
                img,
                self.shoff + i * self.shentsize,
                (#[trigger] self.sections[i]).name,
                self.sections[i].section,
            )
        &&& self.segments.len() > 0 ==> self.phoff != 0 && program_header_size(img)
            <= self.phentsize && self.phoff + self.segments.len() * self.phentsize <= data.len()
        &&& forall|i: int|
            0 <= i < self.segments.len() ==> segment_written(
                img,
                self.phoff + i * self.phentsize,
                #[trigger] self.segments[i],
            )
    }

    /// Every section lies in the file and has its name in the name table.
    pub open spec fn sections_placed(self, data: Seq<u8>) -> bool {
        &&& self.names == 0 || self.names < self.sections.len()
        &&& forall|i: int|
            0 <= i < self.sections.len() ==> {
                let s = (#[trigger] self.sections[i]).section;
                &&& s.kind == SHT_NOBITS || s.offset + s.size <= data.len()
                &&& if self.names == 0 {
                    s.name == Seq::<char>::empty()
                } else {
                    text_at(
                        bytes_in(data, self.sections[self.names as int].section),
                        self.sections[i].name as int,
                        s.name,
                    )
                }
            }
    }

    /// The bytes of `.gnu.version`, when there is one.
    pub open spec fn versym(self, data: Seq<u8>) -> Option<Seq<u8>> {
        match first_of(self.sections, SHT_GNU_VERSYM, 0) {
            Some(s) => Some(bytes_in(data, s.section)),
            None => None,
        }
    }

    /// A section holds what was put into it, with its texts in the string table that
    /// it is linked to.
    pub open spec fn content_written(self, data: Seq<u8>, s: WrittenSection) -> bool {
        let d = self.image(data).over(bytes_in(data, s.section));
        let strtab = bytes_in(data, self.sections[s.section.link as int].section);
        match s.content {
            Content::Entries(entries) => {
                &&& s.section.kind == SHT_DYNAMIC
                &&& s.section.link < self.sections.len()
                &&& entries_written(d, strtab, entries)
            },
            Content::Symbols(symbols) => {
                &&& s.section.kind == SHT_DYNSYM
                &&& s.section.link < self.sections.len()
                &&& symbols_written(d, strtab, self.versym(data), symbols)
            },
            Content::Needs(needs) => {
                &&& s.section.kind == SHT_GNU_VERNEED
                &&& s.section.link < self.sections.len()
                &&& s.section.info == needs.len()
                &&& needs.len() > 0
                &&& needs[0].at == 0
                &&& needs_written(d, strtab, needs)
            },
            Content::Defs(defs) => {
                &&& s.section.kind == SHT_GNU_VERDEF
                &&& s.section.link < self.sections.len()
                &&& s.section.info == defs.len()
                &&& defs.len() > 0
                &&& defs[0].at == 0
                &&& defs_written(d, strtab, defs)
            },
            Content::Other => {
                &&& s.section.kind != SHT_DYNAMIC
                &&& s.section.kind != SHT_DYNSYM
                &&& s.section.kind != SHT_GNU_VERNEED
                &&& s.section.kind != SHT_GNU_VERDEF
            },
        }
    }

    /// The `PT_INTERP` segment is the path of the interpreter with a NUL after it.
    pub open spec fn interpreter_written(self, data: Seq<u8>) -> bool {
        match (find_segment(self.segments, PT_INTERP, 0), self.interpreter) {
            (None, None) => true,
            (Some(seg), Some(t)) => {
                &&& seg.offset + seg.filesz <= data.len()
                &&& text_at(data.subrange(seg.offset as int, seg.offset + seg.filesz), 0, t)
            },
            _ => false,
        }
    }

    /// The bytes are this file.
    pub open spec fn written(self, data: Seq<u8>) -> bool {
        &&& self.header_written(data)
        &&& self.tables_written(data)
        &&& self.sections_placed(data)
        &&& self.interpreter_written(data)
        &&& forall|i: int|
            0 <= i < self.sections.len() ==> self.content_written(data, #[trigger] self.sections[i])
    }

    /// The entries of the dynamic section.
    pub open spec fn entries(self) -> Seq<WrittenEntry> {
        match first_of(self.sections, SHT_DYNAMIC, 0) {
            Some(s) => s.content->Entries_0,
            None => Seq::empty(),
        }
    }

    /// The dynamic symbols.
    pub open spec fn symbols(self) -> Seq<WrittenSymbol> {
        match first_of(self.sections, SHT_DYNSYM, 0) {
            Some(s) => s.content->Symbols_0,
            None => Seq::empty(),
        }
    }

    /// The strings of the read-only data sections.
    pub open spec fn strings(self, data: Seq<u8>) -> Set<Seq<char>> {
        Set::new(
            |t: Seq<char>|
                exists|i: int|
                    0 <= i < self.sections.len() && is_read_only_data(
                        (#[trigger] self.sections[i]).section,
                    ) && strings_in(bytes_in(data, self.sections[i].section)).contains(t),
        )
    }

    /// What a reader should find in the file.
    pub open spec fn read_back(self, data: Seq<u8>) -> ElfModel {
        let table = versions_written(self.sections, 0, Map::empty());
        ElfModel {
            class: self.class,
            endian: self.endian,
            file_type: self.file_type,
            machine: self.machine,
            interpreter: self.interpreter,
            segments: self.segments,
            sections: self.sections.map_values(|s: WrittenSection| s.section),
            needed: entries_read(self.entries()).needed,
            soname: entries_read(self.entries()).soname,
            rpath: entries_read(self.entries()).rpath,
            runpath: entries_read(self.entries()).runpath,
            symbols: symbols_read(self.symbols(), used_versions(self.versym(data), table)),
            rodata_strings: in_order::<String>(self.strings(data)),
        }
    }
}

proof fn lemma_u16_field(img: Image, at: int, v: nat)
    requires
        holds(img, at, 2, v),
    ensures
        v <= u16::MAX,
        img.field(at, 2) == v,
{
    law_field_round_trip(img, at, 2, v);
    reveal_with_fuel(bound, 3);
}

proof fn lemma_header(f: WrittenFile, data: Seq<u8>)
    requires
        f.header_written(data),
    ensures
        header(f.image(data)) == (Header {
            file_type: f.file_type,
            machine: f.machine,
            phoff: f.phoff,
            shoff: f.shoff,
            phentsize: f.phentsize as u64,
            phnum: f.phnum() as u16,
            shentsize: f.shentsize as u64,
            shnum: f.shnum() as u16,
            shstrndx: f.shstrndx() as u16,
        }),
{
    let img = f.image(data);
    let w = img.word_size() as int;
    lemma_u16_field(img, 16, f.file_type as nat);
    lemma_u16_field(img, 18, f.machine as nat);
    lemma_word(img, 24 + w, f.phoff as nat);
    lemma_word(img, 24 + 2 * w, f.shoff as nat);
    lemma_u16_field(img, 30 + 3 * w, f.phentsize as nat);
    lemma_u16_field(img, 32 + 3 * w, f.phnum());
    lemma_u16_field(img, 34 + 3 * w, f.shentsize as nat);
    lemma_u16_field(img, 36 + 3 * w, f.shnum());
    lemma_u16_field(img, 38 + 3 * w, f.shstrndx());
}

/// The section header table as it is read before the sections get their names.
pub open spec fn nameless(sections: Seq<WrittenSection>) -> Seq<(u32, SectionModel)> {
    sections.map_values(|s: WrittenSection| (s.name, bare(s.section)))
}

proof fn lemma_raw(f: WrittenFile, data: Seq<u8>)
    requires
        f.header_written(data),
        f.tables_written(data),
    ensures
        raw_sections(f.image(data)) == Ok::<Seq<(u32, SectionModel)>, ElfError>(
            nameless(f.sections),
        ),
        section_zero(f.image(data)) == (if f.sections.len() == 0 {
            None
        } else {
            Some(bare(f.sections[0].section))
        }),
{
    let img = f.image(data);
    lemma_header(f, data);
    if f.sections.len() == 0 {
        assert(nameless(f.sections) =~= Seq::empty());
    } else {
        let n = f.sections.len();
        let e = f.shentsize as int;
        let first = f.sections[0];
        law_section_header_round_trip(img, f.shoff + 0 * e, first.name, first.section);
        assert(f.shnum() == 0 ==> n >= 0xff00);
        let got = Seq::new(
            n,
            |i: int| section_header(img, (f.shoff + i * (f.shentsize as u64)) as u64)->Ok_0,
        );
        assert forall|i: int| 0 <= i < n implies got[i] == nameless(f.sections)[i] by {
            let s = f.sections[i];
            law_section_header_round_trip(img, f.shoff + i * e, s.name, s.section);
        }
        assert(got =~= nameless(f.sections));
    }
}

proof fn lemma_segments(f: WrittenFile, data: Seq<u8>)
    requires
        f.header_written(data),
        f.tables_written(data),
    ensures
        segments(f.image(data)) == Ok::<Seq<Segment>, ElfError>(f.segments),
{
    let img = f.image(data);
    lemma_header(f, data);
    lemma_raw(f, data);
    assert(segment_count(img) == f.segments.len());
    let n = f.segments.len();
    let e = f.phentsize as int;
    if n > 0 {
        let got = Seq::new(
            n,
            |i: int| program_header(img, f.phoff + i * (f.phentsize as u64)),
        );
        assert forall|i: int| 0 <= i < n implies got[i] == f.segments[i] by {
            law_program_header_round_trip(img, f.phoff + i * e, f.segments[i]);
        }
        assert(got =~= f.segments);
    } else {
        assert(f.segments =~= Seq::empty());
    }
}

/// The sections with their names.
pub open spec fn plain(sections: Seq<WrittenSection>) -> Seq<SectionModel> {
    sections.map_values(|s: WrittenSection| s.section)
}

proof fn lemma_names(f: WrittenFile, data: Seq<u8>, i: int)
    requires
        f.sections_placed(data),
        f.names != 0,
        0 <= i <= f.sections.len(),
    ensures
        named_from(
            bytes_in(data, f.sections[f.names as int].section),
            nameless(f.sections),
            i,
            plain(f.sections).take(i),
        ) == Ok::<Seq<SectionModel>, ElfError>(plain(f.sections)),
    decreases f.sections.len() - i,
{
    let names = bytes_in(data, f.sections[f.names as int].section);
    let all = plain(f.sections);
    if i == f.sections.len() {
        assert(all.take(i) =~= all);
    } else {
        let s = f.sections[i];
        law_string_round_trip(names, s.name, s.section.name, "section name");
        assert(all.take(i).push(s.section) =~= all.take(i + 1));
        lemma_names(f, data, i + 1);
    }
}

proof fn lemma_named(f: WrittenFile, data: Seq<u8>)
    requires
        f.header_written(data),
        f.tables_written(data),
        f.sections_placed(data),
    ensures
        named_sections(f.image(data), nameless(f.sections)) == Ok::<Seq<SectionModel>, ElfError>(
            plain(f.sections),
        ),
{
    let img = f.image(data);
    let raw = nameless(f.sections);
    lemma_header(f, data);
    lemma_raw(f, data);
    assert(name_table_index(img) == f.names);
    if f.names == 0 {
        let unnamed = raw.map_values(|p: (u32, SectionModel)| p.1);
        assert forall|i: int| 0 <= i < raw.len() implies unnamed[i] == plain(f.sections)[i] by {
            assert(f.sections[i].section.name == Seq::<char>::empty());
        }
        assert(unnamed =~= plain(f.sections));
    } else {
        assert(plain(f.sections).take(0) =~= Seq::empty());
        lemma_names(f, data, 0);
    }
}

proof fn lemma_interpreter(f: WrittenFile, data: Seq<u8>)
    requires
        data.len() <= u64::MAX,
        f.interpreter_written(data),
    ensures
        interpreter(f.image(data), f.segments) == Ok::<Option<Seq<char>>, ElfError>(f.interpreter),
{
    if let Some(seg) = find_segment(f.segments, PT_INTERP, 0) {
        let b = data.subrange(seg.offset as int, seg.offset + seg.filesz);
        lemma_text_at(b, 0, f.interpreter->Some_0);
        assert(b.take(nul_from(b, 0)) =~= b.subrange(0, nul_from(b, 0)));
    }
}

proof fn lemma_first(sections: Seq<WrittenSection>, kind: u32, i: int)
    requires
        0 <= i,
    ensures
        find_section(plain(sections), kind, i) == (match first_of(sections, kind, i) {
            Some(s) => Some(s.section),
            None => None,
        }),
        first_of(sections, kind, i) matches Some(s) ==> s.section.kind == kind && exists|j: int|
            0 <= j < sections.len() && #[trigger] sections[j] == s,
    decreases sections.len() - i,
{
    if i < sections.len() && sections[i].section.kind != kind {
        lemma_first(sections, kind, i + 1);
    }
}

proof fn lemma_bytes(f: WrittenFile, data: Seq<u8>, i: int, what: &'static str)
    requires
        f.sections_placed(data),
        0 <= i < f.sections.len(),
    ensures
        section_data(f.image(data), f.sections[i].section, what) == Ok::<Seq<u8>, ElfError>(
            bytes_in(data, f.sections[i].section),
        ),
{
}

proof fn lemma_dynamic(f: WrittenFile, data: Seq<u8>)
    requires
        f.written(data),
    ensures
        dynamic(f.image(data), plain(f.sections)) == Ok::<DynamicModel, ElfError>(
            entries_read(f.entries()),
        ),
{
    let img = f.image(data);
    lemma_first(f.sections, SHT_DYNAMIC, 0);
    match first_of(f.sections, SHT_DYNAMIC, 0) {
        None => {
            assert(entries_read(f.entries()) == no_dynamic());
        },
        Some(s) => {
            let j = choose|j: int| 0 <= j < f.sections.len() && #[trigger] f.sections[j] == s;
            assert(f.content_written(data, f.sections[j]));
            let link = s.section.link as int;
            lemma_bytes(f, data, j, ".dynamic");
            lemma_bytes(f, data, link, ".dynamic string table");
            law_dynamic_entries_round_trip(
                img.over(bytes_in(data, s.section)),
                bytes_in(data, f.sections[link].section),
                f.entries(),
            );
        },
    }
}

#[verifier::spinoff_prover]
#[verifier::rlimit(40)]
proof fn lemma_version_section(f: WrittenFile, data: Seq<u8>, i: int, table: Versions)
    requires
        f.written(data),
        0 <= i < f.sections.len(),
    ensures
        ({
            let s = f.sections[i];
            let added = versions_added(s.content, table);
            if s.section.kind == SHT_GNU_VERNEED || s.section.kind == SHT_GNU_VERDEF {
                version_section(f.image(data), plain(f.sections), s.section, table) == Ok::<
                    Versions,
                    ElfError,
                >(added)
            } else {
                added == table
            }
        }),
{
    let s = f.sections[i];
    let d = f.image(data).over(bytes_in(data, s.section));
    let link = s.section.link as int;
    let names = bytes_in(data, f.sections[link].section);
    assert(f.content_written(data, s));
    lemma_bytes(f, data, i, "version section");
    match s.content {
        Content::Needs(needs) => {
            lemma_bytes(f, data, link, "version string table");
            law_needed_versions_round_trip(d, names, needs, table);
        },
        Content::Defs(defs) => {
            lemma_bytes(f, data, link, "version string table");
            law_defined_versions_round_trip(d, names, defs, table);
        },
        _ => {},
    }
}

proof fn lemma_versions(f: WrittenFile, data: Seq<u8>, i: int, table: Versions)
    requires
        f.written(data),
        0 <= i <= f.sections.len(),
    ensures
        versions_from(f.image(data), plain(f.sections), i, table) == Ok::<Versions, ElfError>(
            versions_written(f.sections, i, table),
        ),
    decreases f.sections.len() - i,
{
    if i < f.sections.len() {
        assert(plain(f.sections)[i] == f.sections[i].section);
        lemma_version_section(f, data, i, table);
        lemma_versions(f, data, i + 1, versions_added(f.sections[i].content, table));
    }
}

proof fn lemma_dynsym(f: WrittenFile, data: Seq<u8>)
    requires
        f.written(data),
    ensures
        dynsym(f.image(data), plain(f.sections)) == Ok::<Seq<SymbolModel>, ElfError>(
            symbols_read(
                f.symbols(),
                used_versions(f.versym(data), versions_written(f.sections, 0, Map::empty())),
            ),
        ),
{
    let img = f.image(data);
    let table = versions_written(f.sections, 0, Map::empty());
    lemma_first(f.sections, SHT_DYNSYM, 0);
    lemma_first(f.sections, SHT_GNU_VERSYM, 0);
    lemma_versions(f, data, 0, Map::empty());
    if let Some(v) = first_of(f.sections, SHT_GNU_VERSYM, 0) {
        let j = choose|j: int| 0 <= j < f.sections.len() && #[trigger] f.sections[j] == v;
        lemma_bytes(f, data, j, ".gnu.version");
    }
    assert(versym_data(img, plain(f.sections)) == Ok::<Option<Seq<u8>>, ElfError>(f.versym(data)));
    match first_of(f.sections, SHT_DYNSYM, 0) {
        None => {
            assert(symbols_read(f.symbols(), used_versions(f.versym(data), table)) =~= Seq::empty());
        },
        Some(s) => {
            let j = choose|j: int| 0 <= j < f.sections.len() && #[trigger] f.sections[j] == s;
            assert(f.content_written(data, f.sections[j]));
            let link = s.section.link as int;
            lemma_bytes(f, data, j, ".dynsym");
            lemma_bytes(f, data, link, ".dynsym string table");
            law_symbols_round_trip(
                img.over(bytes_in(data, s.section)),
                bytes_in(data, f.sections[link].section),
                f.versym(data),
                table,
                f.symbols(),
            );
        },
    }
}

/// The strings of the read-only data sections before the `i`th.
pub open spec fn strings_so_far(f: WrittenFile, data: Seq<u8>, i: int) -> Set<Seq<char>> {
    Set::new(
        |t: Seq<char>|
            exists|k: int|
                0 <= k < i && is_read_only_data((#[trigger] f.sections[k]).section) && strings_in(
                    bytes_in(data, f.sections[k].section),
                ).contains(t),
    )
}

proof fn lemma_strings(f: WrittenFile, data: Seq<u8>, i: int)
    requires
        f.sections_placed(data),
        0 <= i <= f.sections.len(),
    ensures
        strings_from(f.image(data), plain(f.sections), i, strings_so_far(f, data, i)) == Ok::<
            Set<Seq<char>>,
            ElfError,
        >(f.strings(data)),
    decreases f.sections.len() - i,
{
    let found = strings_so_far(f, data, i);
    if i == f.sections.len() {
        assert(found =~= f.strings(data));
    } else {
        let s = f.sections[i].section;
        let next = strings_so_far(f, data, i + 1);
        assert(plain(f.sections)[i] == s);
        lemma_bytes(f, data, i, "read-only data section");
        lemma_strings(f, data, i + 1);
        if is_read_only_data(s) {
            let all = found.union(strings_in(bytes_in(data, s)));
            assert forall|t: Seq<char>| all.contains(t) implies next.contains(t) by {
                if found.contains(t) {
                    let k = choose|k: int|
                        0 <= k < i && is_read_only_data((#[trigger] f.sections[k]).section)
                            && strings_in(bytes_in(data, f.sections[k].section)).contains(t);
                    assert(0 <= k < i + 1);
                } else {
                    assert(is_read_only_data(f.sections[i].section));
                }
            }
            assert(all =~= next);
        } else {
            assert(found =~= next);
        }
    }
}

/// Reading a file gives back what a linker wrote into it: in both classes and both
/// byte orders, every symbol with its name, binding, type, section, value, size
/// and version; the needed libraries, the name and the search paths; the
/// interpreter; and every section and segment. It does not matter where in the
/// file the tables are, nor whether their counts had to move to section 0.
pub proof fn law_written_files_are_read_back(data: Seq<u8>, f: WrittenFile)
    requires
        f.written(data),
    ensures
        elf_model(data) == Ok::<ElfModel, ElfError>(f.read_back(data)),
{
    reveal(image_model);
    let img = f.image(data);
    lemma_header(f, data);
    lemma_raw(f, data);
    lemma_segments(f, data);
    lemma_named(f, data);
    lemma_interpreter(f, data);
    lemma_dynamic(f, data);
    lemma_dynsym(f, data);
    lemma_strings(f, data, 0);
    assert(strings_so_far(f, data, 0) =~= Set::empty());
    assert(rodata_strings(img, plain(f.sections)) == Ok::<Seq<Seq<char>>, ElfError>(
        in_order::<String>(f.strings(data)),
    ));
    assert(elf_model(data) == image_model(img));
}

} // verus!
