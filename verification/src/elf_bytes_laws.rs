//! What the tables of a parsed file have to do with its bytes: written down again,
//! they are what stands in the file.

use crate::elf::{bound, Binding, Class, Endian, SymbolType, SHT_DYNSYM, SHT_NOBITS};
use crate::elf_file_laws::{
    last_text, section_written, segment_written, texts_with, law_written_files_are_read_back,
    WrittenFile,
};
use crate::elf_laws::{big_bytes, holds, image_of, law_field_round_trip, little_bytes};
use crate::elf_model::{
    big, binding_of, cstring, dynsym, elf_model, find_section, header, image_model, little,
    name_table_index, named_from, program_header, raw_sections, section_at, section_data,
    section_header, section_header_size, segment_count, segments, symbol_entry, symbol_size,
    symbol_version, symbols_from, type_of, versions_from, versym_data, Image, SectionModel,
    SymbolModel, Versions,
};
use vstd::prelude::*;

verus! {

proof fn lemma_little_back(b: Seq<u8>)
    ensures
        little(b) < bound(b.len()),
        little_bytes(little(b), b.len()) == b,
    decreases b.len(),
{
    if b.len() > 0 {
        let rest = b.drop_first();
        lemma_little_back(rest);
        let v = little(b);
        assert(v % 256 == b[0] as nat && v / 256 == little(rest)) by {
            assert(v == b[0] as nat + 256 * little(rest));
        }
        assert(little_bytes(v, b.len()) =~= b);
    } else {
        assert(little_bytes(0, 0) =~= b);
    }
}

proof fn lemma_big_back(b: Seq<u8>)
    ensures
        big(b) < bound(b.len()),
        big_bytes(big(b), b.len()) == b,
    decreases b.len(),
{
    if b.len() > 0 {
        let rest = b.drop_last();
        lemma_big_back(rest);
        let v = big(b);
        assert(v % 256 == b.last() as nat && v / 256 == big(rest)) by {
            assert(v == 256 * big(rest) + b.last() as nat);
        }
        assert(big_bytes(v, b.len()) =~= b);
    } else {
        assert(big_bytes(0, 0) =~= b);
    }
}

/// Bytes hold the number that is read from them.
proof fn lemma_holds(img: Image, at: int, n: nat)
    requires
        0 <= at,
        at + n <= img.data.len(),
        n == 1 || n == 2 || n == 4 || n == 8,
    ensures
        holds(img, at, n, img.field(at, n as int)),
        n == 1 ==> img.field(at, 1) == img.data[at],
        n == 2 ==> img.field(at, 2) <= u16::MAX,
        n == 4 ==> img.field(at, 4) <= u32::MAX,
        n == 8 ==> img.field(at, 8) <= u64::MAX,
{
    let b = img.data.subrange(at, at + n);
    lemma_little_back(b);
    lemma_big_back(b);
    reveal_with_fuel(bound, 9);
    reveal_with_fuel(little, 2);
    reveal_with_fuel(big, 2);
}

/// A field has one value.
proof fn lemma_value(img: Image, at: int, n: nat, v: nat)
    requires
        holds(img, at, n, v),
    ensures
        img.field(at, n as int) == v,
{
    law_field_round_trip(img, at, n, v);
}

/// How many bytes an address takes.
pub open spec fn address_size(data: Seq<u8>) -> int {
    if data[4] == 1 {
        4
    } else {
        8
    }
}

/// The first bytes of a file say how to read it, and its type and machine stand behind
/// them.
pub proof fn law_the_header_says_what_a_file_is(data: Seq<u8>)
    requires
        elf_model(data) is Ok,
    ensures
        data.len() >= 52,
        data[0] == 127 && data[1] == 69 && data[2] == 76 && data[3] == 70,
        data[4] == 1 ==> elf_model(data)->Ok_0.class == Class::Elf32,
        data[4] != 1 ==> data[4] == 2 && elf_model(data)->Ok_0.class == Class::Elf64,
        data[5] == 1 ==> elf_model(data)->Ok_0.endian == Endian::Little,
        data[5] != 1 ==> data[5] == 2 && elf_model(data)->Ok_0.endian == Endian::Big,
        holds(image_of(data), 16, 2, elf_model(data)->Ok_0.file_type as nat),
        holds(image_of(data), 18, 2, elf_model(data)->Ok_0.machine as nat),
{
    reveal(image_model);
    let img = image_of(data);
    assert(elf_model(data) == image_model(img));
    lemma_holds(img, 16, 2);
    lemma_holds(img, 18, 2);
}

proof fn lemma_section_at(img: Image, off: u64)
    requires
        off + section_header_size(img) <= img.data.len(),
        img.data.len() <= u64::MAX,
    ensures
        section_header(img, off) is Ok,
        section_written(
            img,
            off as int,
            section_header(img, off)->Ok_0.0,
            section_header(img, off)->Ok_0.1,
        ),
{
    let w = img.word_size();
    let at = off as int;
    lemma_holds(img, at, 4);
    lemma_holds(img, at + 4, 4);
    lemma_holds(img, at + 8, w as nat);
    lemma_holds(img, at + 8 + w, w as nat);
    lemma_holds(img, at + 8 + 2 * w, w as nat);
    lemma_holds(img, at + 8 + 3 * w, w as nat);
    lemma_holds(img, at + 8 + 4 * w, 4);
    lemma_holds(img, at + 12 + 4 * w, 4);
    lemma_holds(img, at + 16 + 5 * w, w as nat);
}

proof fn lemma_named(
    names: Seq<u8>,
    raw: Seq<(u32, SectionModel)>,
    i: int,
    done: Seq<SectionModel>,
)
    requires
        0 <= i <= raw.len(),
        done.len() == i,
        named_from(names, raw, i, done) is Ok,
    ensures
        named_from(names, raw, i, done)->Ok_0.len() == raw.len(),
        forall|k: int|
            0 <= k < i ==> #[trigger] named_from(names, raw, i, done)->Ok_0[k] == done[k],
        forall|k: int|
            i <= k < raw.len() ==> #[trigger] named_from(names, raw, i, done)->Ok_0[k]
                == (SectionModel {
                name: named_from(names, raw, i, done)->Ok_0[k].name,
                ..raw[k].1
            }) && cstring(names, raw[k].0, "section name") == Ok::<
                Seq<char>,
                crate::elf::ElfError,
            >(named_from(names, raw, i, done)->Ok_0[k].name),
    decreases raw.len() - i,
{
    if i < raw.len() {
        let name = cstring(names, raw[i].0, "section name")->Ok_0;
        let more = done.push(SectionModel { name, ..raw[i].1 });
        lemma_named(names, raw, i + 1, more);
        let all = named_from(names, raw, i, done)->Ok_0;
        assert(all[i] == more[i]);
        assert forall|k: int| 0 <= k < i implies #[trigger] all[k] == done[k] by {
            assert(all[k] == more[k]);
        }
    }
}

/// The header of the `i`th section of a table stands in the file, but for the text of
/// the name.
pub open spec fn is_listed(img: Image, shoff: int, size: int, s: SectionModel, i: int) -> bool {
    exists|name: u32| #[trigger] section_written(img, shoff + i * size, name, s)
}

/// The sections of a parsed file are its section header table, entry by entry. Their
/// number is in the file header, or in section 0 where it does not fit there.
pub proof fn law_sections_are_the_header_table(data: Seq<u8>, shoff: u64, size: u16, count: u16)
    requires
        elf_model(data) is Ok,
        data.len() <= u64::MAX,
        holds(image_of(data), 24 + 2 * address_size(data), address_size(data) as nat, shoff as nat),
        holds(image_of(data), 34 + 3 * address_size(data), 2, size as nat),
        holds(image_of(data), 36 + 3 * address_size(data), 2, count as nat),
    ensures
        shoff == 0 ==> elf_model(data)->Ok_0.sections.len() == 0,
        shoff != 0 && count != 0 ==> elf_model(data)->Ok_0.sections.len() == count,
        shoff != 0 && count == 0 ==> holds(
            image_of(data),
            shoff + 8 + 3 * address_size(data),
            address_size(data) as nat,
            elf_model(data)->Ok_0.sections.len(),
        ),
        forall|i: int|
            0 <= i < elf_model(data)->Ok_0.sections.len() ==> #[trigger] is_listed(
                image_of(data),
                shoff as int,
                size as int,
                elf_model(data)->Ok_0.sections[i],
                i,
            ),
{
    reveal(image_model);
    let img = image_of(data);
    let m = elf_model(data)->Ok_0;
    assert(elf_model(data) == image_model(img));
    let w = address_size(data);
    assert(img.word_size() == w);
    lemma_value(img, 24 + 2 * w, w as nat, shoff as nat);
    lemma_value(img, 34 + 3 * w, 2, size as nat);
    lemma_value(img, 36 + 3 * w, 2, count as nat);
    let h = header(img);
    assert(h.shoff == shoff && h.shentsize == size && h.shnum == count);
    let raw = raw_sections(img)->Ok_0;
    let bare = raw.map_values(|p: (u32, SectionModel)| p.1);
    let index = name_table_index(img);
    if raw.len() != 0 && index != 0 {
        let s = section_at(bare, index, "e_shstrndx")->Ok_0;
        let names = section_data(img, s, "section name table")->Ok_0;
        lemma_named(names, raw, 0, Seq::empty());
    }
    assert(m.sections.len() == raw.len());
    if shoff != 0 {
        assert(section_header(img, shoff) is Ok);
        assert(shoff + section_header_size(img) <= img.data.len());
        lemma_section_at(img, shoff);
    }
    assert forall|i: int| 0 <= i < m.sections.len() implies #[trigger] is_listed(
        img,
        shoff as int,
        size as int,
        m.sections[i],
        i,
    ) by {
        let e = size as int;
        let n = raw.len() as int;
        assert(i * e + e <= n * e && 0 <= i * e) by (nonlinear_arith)
            requires
                0 <= i < n,
                0 <= e,
        ;
        let off = (shoff + i * e) as u64;
        lemma_section_at(img, off);
        assert(raw[i] == section_header(img, off)->Ok_0);
        assert(section_written(img, shoff + i * e, raw[i].0, raw[i].1));
        assert(section_written(img, shoff + i * e, raw[i].0, m.sections[i]));
    }
}

proof fn lemma_segment_at(img: Image, at: int)
    requires
        0 <= at,
        at + crate::elf_model::program_header_size(img) <= img.data.len(),
    ensures
        segment_written(img, at, program_header(img, at)),
{
    match img.class {
        Class::Elf32 => {
            lemma_holds(img, at, 4);
            lemma_holds(img, at + 4, 4);
            lemma_holds(img, at + 8, 4);
            lemma_holds(img, at + 16, 4);
            lemma_holds(img, at + 20, 4);
            lemma_holds(img, at + 24, 4);
        },
        Class::Elf64 => {
            lemma_holds(img, at, 4);
            lemma_holds(img, at + 4, 4);
            lemma_holds(img, at + 8, 8);
            lemma_holds(img, at + 16, 8);
            lemma_holds(img, at + 32, 8);
            lemma_holds(img, at + 40, 8);
        },
    }
}

/// The segments of a parsed file are its program header table, entry by entry.
pub proof fn law_segments_are_the_header_table(data: Seq<u8>, phoff: u64, size: u16, count: u16)
    requires
        elf_model(data) is Ok,
        data.len() <= u64::MAX,
        holds(image_of(data), 24 + address_size(data), address_size(data) as nat, phoff as nat),
        holds(image_of(data), 30 + 3 * address_size(data), 2, size as nat),
        holds(image_of(data), 32 + 3 * address_size(data), 2, count as nat),
    ensures
        phoff == 0 ==> elf_model(data)->Ok_0.segments.len() == 0,
        phoff != 0 && count != 0xffff ==> elf_model(data)->Ok_0.segments.len() == count,
        phoff != 0 && count == 0xffff && elf_model(data)->Ok_0.sections.len() > 0
            ==> elf_model(data)->Ok_0.segments.len() == elf_model(data)->Ok_0.sections[0].info,
        forall|i: int|
            0 <= i < elf_model(data)->Ok_0.segments.len() ==> segment_written(
                image_of(data),
                phoff + i * size,
                #[trigger] elf_model(data)->Ok_0.segments[i],
            ),
{
    reveal(image_model);
    let img = image_of(data);
    let m = elf_model(data)->Ok_0;
    assert(elf_model(data) == image_model(img));
    let w = address_size(data);
    lemma_value(img, 24 + w, w as nat, phoff as nat);
    lemma_value(img, 30 + 3 * w, 2, size as nat);
    lemma_value(img, 32 + 3 * w, 2, count as nat);
    let h = header(img);
    assert(h.phoff == phoff && h.phentsize == size && h.phnum == count);
    if m.sections.len() > 0 && count == 0xffff {
        let raw = raw_sections(img)->Ok_0;
        let bare = raw.map_values(|p: (u32, SectionModel)| p.1);
        let index = name_table_index(img);
        if raw.len() != 0 && index != 0 {
            let s = section_at(bare, index, "e_shstrndx")->Ok_0;
            let names = section_data(img, s, "section name table")->Ok_0;
            lemma_named(names, raw, 0, Seq::empty());
        }
        assert(raw[0] == section_header(img, (h.shoff + 0 * h.shentsize) as u64)->Ok_0);
        assert(m.sections[0].info == raw[0].1.info);
        assert(segment_count(img) == m.sections[0].info);
    }
    assert forall|i: int| 0 <= i < m.segments.len() implies segment_written(
        img,
        phoff + i * size,
        #[trigger] m.segments[i],
    ) by {
        let e = size as int;
        let n = m.segments.len() as int;
        assert(i * e + e <= n * e && 0 <= i * e) by (nonlinear_arith)
            requires
                0 <= i < n,
                0 <= e,
        ;
        lemma_segment_at(img, phoff + i * e);
    }
}

/// The number that a file has for a binding.
pub open spec fn binding_code(b: Binding) -> int {
    match b {
        Binding::Local => 0,
        Binding::Global => 1,
        Binding::Weak => 2,
        Binding::GnuUnique => 10,
        Binding::Other(v) => v as int,
    }
}

/// The number that a file has for a symbol type.
pub open spec fn type_code(t: SymbolType) -> int {
    match t {
        SymbolType::NoType => 0,
        SymbolType::Object => 1,
        SymbolType::Func => 2,
        SymbolType::Section => 3,
        SymbolType::File => 4,
        SymbolType::Common => 5,
        SymbolType::Tls => 6,
        SymbolType::GnuIfunc => 10,
        SymbolType::Other(v) => v as int,
    }
}

/// The bytes at `at` of a table say what a symbol is: its value, its size, its section,
/// and its binding and type in one byte. A binding or type with a name of its own is
/// never called by its number.
pub open spec fn symbol_stands_at(d: Image, at: int, s: SymbolModel) -> bool {
    &&& s.binding matches Binding::Other(v) ==> v != 0 && v != 1 && v != 2 && v != 10
    &&& s.kind matches SymbolType::Other(v) ==> v > 6 && v != 10
    &&& match d.class {
        Class::Elf32 => {
            &&& holds(d, at + 4, 4, s.value as nat)
            &&& holds(d, at + 8, 4, s.size as nat)
            &&& holds(d, at + 12, 1, (binding_code(s.binding) * 16 + type_code(s.kind)) as nat)
            &&& holds(d, at + 14, 2, s.section_index as nat)
        },
        Class::Elf64 => {
            &&& holds(d, at + 4, 1, (binding_code(s.binding) * 16 + type_code(s.kind)) as nat)
            &&& holds(d, at + 6, 2, s.section_index as nat)
            &&& holds(d, at + 8, 8, s.value as nat)
            &&& holds(d, at + 16, 8, s.size as nat)
        },
    }
}

/// The size of an entry of a symbol table.
pub open spec fn entry_size(class: Class) -> int {
    match class {
        Class::Elf32 => 16,
        Class::Elf64 => 24,
    }
}

proof fn lemma_symbol_at(d: Image, at: int, s: SymbolModel)
    requires
        0 <= at,
        at + entry_size(d.class) <= d.data.len(),
        s.binding == binding_of(symbol_entry(d, at).info >> 4),
        s.kind == type_of(symbol_entry(d, at).info & 0xf),
        s.value == symbol_entry(d, at).value,
        s.size == symbol_entry(d, at).size,
        s.section_index == symbol_entry(d, at).section_index,
    ensures
        symbol_stands_at(d, at, s),
{
    let info = symbol_entry(d, at).info;
    let hi = info >> 4;
    let lo = info & 0xf;
    assert(hi < 16 && lo < 16 && hi * 16 + lo == info) by (bit_vector)
        requires
            hi == info >> 4,
            lo == info & 0xf,
    ;
    assert(binding_code(s.binding) == hi);
    assert(type_code(s.kind) == lo);
    match d.class {
        Class::Elf32 => {
            lemma_holds(d, at + 4, 4);
            lemma_holds(d, at + 8, 4);
            lemma_holds(d, at + 12, 1);
            lemma_holds(d, at + 14, 2);
        },
        Class::Elf64 => {
            lemma_holds(d, at + 4, 1);
            lemma_holds(d, at + 6, 2);
            lemma_holds(d, at + 8, 8);
            lemma_holds(d, at + 16, 8);
        },
    }
}

proof fn lemma_symbols(
    d: Image,
    strtab: Seq<u8>,
    versym: Option<Seq<u8>>,
    table: Versions,
    i: int,
    done: Seq<SymbolModel>,
)
    requires
        1 <= i,
        done.len() == i - 1,
        i <= d.data.len() as int / entry_size(d.class) || done.len() == 0,
        symbols_from(d, strtab, versym, table, i, done) is Ok,
        forall|k: int|
            0 <= k < done.len() ==> symbol_stands_at(
                d,
                (k + 1) * entry_size(d.class),
                #[trigger] done[k],
            ),
        forall|k: int|
            0 <= k < done.len() && !(versym matches Some(v) && (k + 2) * 2 <= v.len()) ==> (
            #[trigger] done[k]).version is None,
    ensures
        ({
            let n = d.data.len() as int / entry_size(d.class);
            let all = symbols_from(d, strtab, versym, table, i, done)->Ok_0;
            &&& all.len() == if n <= 1 {
                0
            } else {
                n - 1
            }
            &&& forall|k: int|
                0 <= k < all.len() ==> symbol_stands_at(
                    d,
                    (k + 1) * entry_size(d.class),
                    #[trigger] all[k],
                )
            &&& forall|k: int|
                0 <= k < all.len() && !(versym matches Some(v) && (k + 2) * 2 <= v.len()) ==> (
                #[trigger] all[k]).version is None
        }),
    decreases d.data.len() - i,
{
    let e = entry_size(d.class);
    assert(symbol_size(d.class) == e);
    let n = d.data.len() as int / e;
    if i < n {
        assert(i * e + e <= d.data.len() && 0 <= i * e && i < d.data.len()) by (nonlinear_arith)
            requires
                0 <= i < d.data.len() as int / e,
                e == 16 || e == 24,
        ;
        let entry = symbol_entry(d, i * e);
        let next = SymbolModel {
            name: cstring(strtab, entry.name, "symbol name")->Ok_0,
            binding: binding_of(entry.info >> 4),
            kind: type_of(entry.info & 0xf),
            section_index: entry.section_index,
            value: entry.value,
            size: entry.size,
            version: symbol_version(d, versym, table, i),
        };
        lemma_symbol_at(d, i * e, next);
        let more = done.push(next);
        assert forall|k: int| 0 <= k < more.len() implies symbol_stands_at(
            d,
            (k + 1) * e,
            #[trigger] more[k],
        ) by {
            if k < done.len() {
                assert(symbol_stands_at(d, (k + 1) * e, done[k]));
            }
        }
        lemma_symbols(d, strtab, versym, table, i + 1, more);
    }
}

/// The symbols of a parsed file are the entries of its first section of type 11, all
/// but the reserved one.
pub proof fn law_symbols_are_the_table(data: Seq<u8>, j: int)
    requires
        elf_model(data) is Ok,
        0 <= j < elf_model(data)->Ok_0.sections.len(),
        elf_model(data)->Ok_0.sections[j].kind == 11,
        forall|i: int|
            0 <= i < j ==> (#[trigger] elf_model(data)->Ok_0.sections[i]).kind != 11,
    ensures
        ({
            let m = elf_model(data)->Ok_0;
            let s = m.sections[j];
            let d = Image {
                data: data.subrange(s.offset as int, s.offset + s.size),
                class: m.class,
                endian: m.endian,
            };
            let n = s.size as int / entry_size(m.class);
            &&& s.offset + s.size <= data.len()
            &&& m.symbols.len() == if n <= 1 {
                0
            } else {
                n - 1
            }
            &&& forall|k: int|
                0 <= k < m.symbols.len() ==> symbol_stands_at(
                    d,
                    (k + 1) * entry_size(m.class),
                    #[trigger] m.symbols[k],
                )
        }),
{
    reveal(image_model);
    let img = image_of(data);
    let m = elf_model(data)->Ok_0;
    assert(elf_model(data) == image_model(img));
    let s = m.sections[j];
    lemma_first_section(m.sections, 11, 0, j);
    assert(SHT_DYNSYM == 11 && SHT_NOBITS == 8);
    let body = section_data(img, s, ".dynsym")->Ok_0;
    let t = section_at(m.sections, s.link as u64, ".dynsym sh_link")->Ok_0;
    let strtab = section_data(img, t, ".dynsym string table")->Ok_0;
    let versym = versym_data(img, m.sections)->Ok_0;
    let table = versions_from(img, m.sections, 0, Map::empty())->Ok_0;
    lemma_symbols(img.over(body), strtab, versym, table, 1, Seq::empty());
}

/// A symbol has a version only where `.gnu.version`, the first section of type
/// 0x6fffffff, has an entry for it.
pub proof fn law_versions_need_an_entry(data: Seq<u8>, k: int)
    requires
        elf_model(data) is Ok,
        0 <= k < elf_model(data)->Ok_0.symbols.len(),
        elf_model(data)->Ok_0.symbols[k].version is Some,
    ensures
        exists|v: int|
            0 <= v < elf_model(data)->Ok_0.sections.len() && (
            #[trigger] elf_model(data)->Ok_0.sections[v]).kind == 0x6fff_ffff && (k + 2) * 2
                <= elf_model(data)->Ok_0.sections[v].size && forall|i: int|
                0 <= i < v ==> (#[trigger] elf_model(data)->Ok_0.sections[i]).kind != 0x6fff_ffff,
{
    reveal(image_model);
    let img = image_of(data);
    let m = elf_model(data)->Ok_0;
    assert(elf_model(data) == image_model(img));
    let s = find_section(m.sections, SHT_DYNSYM, 0)->Some_0;
    let body = section_data(img, s, ".dynsym")->Ok_0;
    let t = section_at(m.sections, s.link as u64, ".dynsym sh_link")->Ok_0;
    let strtab = section_data(img, t, ".dynsym string table")->Ok_0;
    let versym = versym_data(img, m.sections)->Ok_0;
    let table = versions_from(img, m.sections, 0, Map::empty())->Ok_0;
    lemma_symbols(img.over(body), strtab, versym, table, 1, Seq::empty());
    assert(versym is Some && (k + 2) * 2 <= versym->Some_0.len());
    lemma_found_section(m.sections, 0x6fff_ffff, 0);
}

proof fn lemma_found_section(sections: Seq<SectionModel>, kind: u32, i: int)
    requires
        0 <= i,
        find_section(sections, kind, i) is Some,
    ensures
        exists|v: int|
            i <= v < sections.len() && (#[trigger] sections[v]).kind == kind && Some(sections[v])
                == find_section(sections, kind, i) && forall|j: int|
                i <= j < v ==> (#[trigger] sections[j]).kind != kind,
    decreases sections.len() - i,
{
    if sections[i].kind == kind {
        assert(sections[i].kind == kind);
    } else {
        lemma_found_section(sections, kind, i + 1);
        let v = choose|v: int|
            i + 1 <= v < sections.len() && (#[trigger] sections[v]).kind == kind && Some(
                sections[v],
            ) == find_section(sections, kind, i + 1) && forall|j: int|
                i + 1 <= j < v ==> (#[trigger] sections[j]).kind != kind;
        assert(sections[v].kind == kind);
    }
}

proof fn lemma_first_section(sections: Seq<SectionModel>, kind: u32, i: int, j: int)
    requires
        0 <= i <= j < sections.len(),
        sections[j].kind == kind,
        forall|k: int| i <= k < j ==> (#[trigger] sections[k]).kind != kind,
    ensures
        find_section(sections, kind, i) == Some(sections[j]),
    decreases j - i,
{
    if i < j {
        assert(sections[i].kind != kind);
        lemma_first_section(sections, kind, i + 1, j);
    }
}

/// Of the dynamic entries that a linker wrote, those with tag 1 are the needed
/// libraries, all of them and in order; the last with tag 14 is the name, the last with
/// tag 15 the `DT_RPATH`, and the last with tag 29 the `DT_RUNPATH`.
pub proof fn law_dynamic_tags(data: Seq<u8>, f: WrittenFile)
    requires
        f.written(data),
    ensures
        elf_model(data) matches Ok(m) && m.needed == texts_with(f.entries(), 1) && m.soname
            == last_text(f.entries(), 14) && m.rpath == last_text(f.entries(), 15) && m.runpath
            == last_text(f.entries(), 29),
{
    law_written_files_are_read_back(data, f);
}

} // verus!
