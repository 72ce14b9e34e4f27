//! Laws of the ELF reader: what was written is read back, and what is read
//! fits the file.

use crate::elf::{
    bound, Class, ElfError, Endian, DT_NEEDED, DT_NULL, DT_RPATH, DT_RUNPATH, DT_SONAME,
    SHT_DYNAMIC, SHT_DYNSYM,
};
use crate::elf_model::{
    at_most, big, binding_of, cstring, dynamic_from, dynamic_string, dynsym, elf_model,
    find_section, header, image_model, is_printable, is_read_only_data, little, min_string_len,
    name_table_index, named_from, no_dynamic, nul_from, number, program_header_size, raw_sections,
    section_at, section_data, section_header_size, string_between, strings_before, strings_from,
    strings_in, symbol_entry, symbol_size, symbol_version, symbols_from, type_of, u16_in, u32_in,
    verdef_from, verdef_limit, vernaux_from, verneed_from, verneed_limit, versions_from,
    versym_data, DynamicModel, Image, SectionModel, SymbolEntry, SymbolModel, VersionModel,
    Versions,
};
use crate::order::{ascending, lemma_in_order_ascending};
use crate::text::{ascii, decoded};
use vstd::prelude::*;
use vstd::utf8::*;

verus! {

/// A number in `n` bytes, least significant byte first.
pub open spec fn little_bytes(v: nat, n: nat) -> Seq<u8>
    decreases n,
{
    if n == 0 {
        Seq::empty()
    } else {
        seq![(v % 256) as u8] + little_bytes(v / 256, (n - 1) as nat)
    }
}

/// A number in `n` bytes, most significant byte first.
pub open spec fn big_bytes(v: nat, n: nat) -> Seq<u8>
    decreases n,
{
    if n == 0 {
        Seq::empty()
    } else {
        big_bytes(v / 256, (n - 1) as nat).push((v % 256) as u8)
    }
}

/// A number in `n` bytes of the given byte order.
pub open spec fn number_bytes(v: nat, n: nat, endian: Endian) -> Seq<u8> {
    match endian {
        Endian::Little => little_bytes(v, n),
        Endian::Big => big_bytes(v, n),
    }
}

proof fn lemma_little_bytes(v: nat, n: nat)
    requires
        v < bound(n),
    ensures
        little_bytes(v, n).len() == n,
        little(little_bytes(v, n)) == v,
    decreases n,
{
    if n > 0 {
        lemma_little_bytes(v / 256, (n - 1) as nat);
        assert(little_bytes(v, n).drop_first() =~= little_bytes(v / 256, (n - 1) as nat));
    }
}

proof fn lemma_big_bytes(v: nat, n: nat)
    requires
        v < bound(n),
    ensures
        big_bytes(v, n).len() == n,
        big(big_bytes(v, n)) == v,
    decreases n,
{
    if n > 0 {
        lemma_big_bytes(v / 256, (n - 1) as nat);
        assert(big_bytes(v, n).drop_last() =~= big_bytes(v / 256, (n - 1) as nat));
    }
}

/// A number written in either byte order is read back.
pub proof fn law_number_round_trip(v: nat, n: nat, endian: Endian)
    requires
        v < bound(n),
    ensures
        number_bytes(v, n, endian).len() == n,
        number(number_bytes(v, n, endian), endian) == v,
{
    lemma_little_bytes(v, n);
    lemma_big_bytes(v, n);
}

/// Bytes hold a number at an offset.
pub open spec fn holds(img: Image, at: int, n: nat, v: nat) -> bool {
    &&& v < bound(n)
    &&& 0 <= at
    &&& at + n <= img.data.len()
    &&& img.data.subrange(at, at + n) == number_bytes(v, n, img.endian)
}

/// A field that was written is read back.
pub proof fn law_field_round_trip(img: Image, at: int, n: nat, v: nat)
    requires
        holds(img, at, n, v),
    ensures
        img.fits(at, n as int),
        img.field(at, n as int) == v,
{
    law_number_round_trip(v, n, img.endian);
}

/// No byte of an encoded scalar other than that of NUL is zero.
proof fn lemma_scalar_bytes(scalar: u32)
    requires
        is_scalar(scalar),
        scalar != 0,
    ensures
        forall|i: int| 0 <= i < encode_scalar(scalar).len() ==> encode_scalar(scalar)[i] != 0,
{
    assert(scalar < 0x80 ==> scalar & 0x7f != 0) by (bit_vector)
        requires
            scalar != 0,
    ;
    assert(forall|x: u8| (0x80u8 | x) != 0 && (0xc0u8 | x) != 0 && (0xe0u8 | x) != 0 && (0xf0u8 | x)
        != 0) by (bit_vector);
}

proof fn lemma_text_bytes(t: Seq<char>)
    requires
        !t.contains('\0'),
    ensures
        forall|i: int| 0 <= i < encode_utf8(t).len() ==> encode_utf8(t)[i] != 0,
    decreases t.len(),
{
    if t.len() > 0 {
        let c: char = t[0];
        let scalar = c as u32;
        char_is_scalar(c);
        char_u32_cast(c, scalar);
        assert(scalar != 0) by {
            assert(c != '\0');
        }
        lemma_scalar_bytes(scalar);
        let rest = t.drop_first();
        assert(!rest.contains('\0')) by {
            if rest.contains('\0') {
                let k = choose|k: int| 0 <= k < rest.len() && rest[k] == '\0';
                assert(t[k + 1] == '\0');
            }
        }
        lemma_text_bytes(rest);
        assert forall|i: int| 0 <= i < encode_utf8(t).len() implies encode_utf8(t)[i] != 0 by {
            let head = encode_scalar(scalar);
            if i >= head.len() {
                assert(encode_utf8(t)[i] == encode_utf8(rest)[i - head.len()]);
            }
        }
    }
}

proof fn lemma_nul_from(table: Seq<u8>, start: int, end: int)
    requires
        0 <= start <= end < table.len(),
        table[end] == 0,
        forall|j: int| start <= j < end ==> table[j] != 0,
    ensures
        nul_from(table, start) == end,
    decreases end - start,
{
    if start < end {
        lemma_nul_from(table, start + 1, end);
    }
}

/// Bytes hold a text at an offset, with a NUL after it.
pub open spec fn text_at(table: Seq<u8>, at: int, t: Seq<char>) -> bool {
    &&& !t.contains('\0')
    &&& 0 <= at
    &&& at + encode_utf8(t).len() < table.len()
    &&& table.subrange(at, at + encode_utf8(t).len()) == encode_utf8(t)
    &&& table[at + encode_utf8(t).len()] == 0
}

/// Where a text was written, the first NUL ends it and its bytes decode to it.
pub proof fn lemma_text_at(table: Seq<u8>, at: int, t: Seq<char>)
    requires
        text_at(table, at, t),
    ensures
        nul_from(table, at) == at + encode_utf8(t).len(),
        decoded(table.subrange(at, nul_from(table, at))) == t,
{
    let body = encode_utf8(t);
    let end = at + body.len();
    lemma_text_bytes(t);
    assert forall|j: int| at <= j < end implies table[j] != 0 by {
        assert(table[j] == table.subrange(at, end)[j - at]);
    }
    lemma_nul_from(table, at, end);
    encode_utf8_valid_utf8(t);
    encode_utf8_decode_utf8(t);
}

/// A text that was written into a string table, with a NUL after it, is read
/// back from its offset.
pub proof fn law_string_round_trip(
    table: Seq<u8>,
    offset: u32,
    t: Seq<char>,
    what: &'static str,
)
    requires
        text_at(table, offset as int, t),
    ensures
        cstring(table, offset, what) == Ok::<Seq<char>, ElfError>(t),
{
    lemma_text_at(table, offset as int, t);
}

/// A symbol as a linker writes it.
pub struct WrittenSymbol {
    /// Offset of the name in the string table.
    pub name: u32,
    pub text: Seq<char>,
    pub binding: u8,
    pub kind: u8,
    pub section_index: u16,
    pub value: u64,
    pub size: u64,
    pub version: u16,
    pub hidden: bool,
}

impl WrittenSymbol {
    /// Every part fits the bits that the format has for it.
    pub open spec fn fits(self, class: Class) -> bool {
        &&& self.binding < 16
        &&& self.kind < 16
        &&& self.version < 0x8000
        &&& class == Class::Elf32 ==> self.value < 0x1_0000_0000 && self.size < 0x1_0000_0000
    }

    /// Binding and type share a byte.
    pub open spec fn info(self) -> u8 {
        (self.binding * 16 + self.kind) as u8
    }

    /// The version index, with the hidden bit above it.
    pub open spec fn versym(self) -> u16 {
        if self.hidden {
            (self.version + 0x8000) as u16
        } else {
            self.version
        }
    }

    /// The bytes at `at` are this symbol's table entry.
    pub open spec fn written(self, d: Image, at: int) -> bool {
        match d.class {
            Class::Elf32 => {
                &&& holds(d, at, 4, self.name as nat)
                &&& holds(d, at + 4, 4, self.value as nat)
                &&& holds(d, at + 8, 4, self.size as nat)
                &&& holds(d, at + 12, 1, self.info() as nat)
                &&& holds(d, at + 14, 2, self.section_index as nat)
            },
            Class::Elf64 => {
                &&& holds(d, at, 4, self.name as nat)
                &&& holds(d, at + 4, 1, self.info() as nat)
                &&& holds(d, at + 6, 2, self.section_index as nat)
                &&& holds(d, at + 8, 8, self.value as nat)
                &&& holds(d, at + 16, 8, self.size as nat)
            },
        }
    }

    /// The symbol that a reader should see; without versions in an object that
    /// has none.
    pub open spec fn read_back(self, table: Option<Versions>) -> SymbolModel {
        SymbolModel {
            name: self.text,
            binding: binding_of(self.binding),
            kind: type_of(self.kind),
            section_index: self.section_index,
            value: self.value,
            size: self.size,
            version: match table {
                Some(v) if self.version >= 2 && v.contains_key(self.version) => Some(
                    VersionModel {
                        name: v[self.version].0,
                        file: v[self.version].1,
                        hidden: self.hidden,
                    },
                ),
                _ => None,
            },
        }
    }
}

proof fn lemma_one_byte(b: Seq<u8>, endian: Endian)
    requires
        b.len() == 1,
    ensures
        number(b, endian) == b[0],
{
    reveal_with_fuel(little, 2);
    reveal_with_fuel(big, 2);
}

/// A symbol-table entry that was written is read back.
pub proof fn law_symbol_entry_round_trip(s: WrittenSymbol, d: Image, at: int)
    requires
        s.fits(d.class),
        s.written(d, at),
    ensures
        symbol_entry(d, at) == (SymbolEntry {
            name: s.name,
            value: s.value,
            size: s.size,
            info: s.info(),
            section_index: s.section_index,
        }),
{
    match d.class {
        Class::Elf32 => {
            law_field_round_trip(d, at, 4, s.name as nat);
            law_field_round_trip(d, at + 4, 4, s.value as nat);
            law_field_round_trip(d, at + 8, 4, s.size as nat);
            law_field_round_trip(d, at + 12, 1, s.info() as nat);
            law_field_round_trip(d, at + 14, 2, s.section_index as nat);
            lemma_one_byte(d.data.subrange(at + 12, at + 13), d.endian);
        },
        Class::Elf64 => {
            law_field_round_trip(d, at, 4, s.name as nat);
            law_field_round_trip(d, at + 4, 1, s.info() as nat);
            law_field_round_trip(d, at + 6, 2, s.section_index as nat);
            law_field_round_trip(d, at + 8, 8, s.value as nat);
            law_field_round_trip(d, at + 16, 8, s.size as nat);
            lemma_one_byte(d.data.subrange(at + 4, at + 5), d.endian);
        },
    }
}

proof fn lemma_info(binding: u8, kind: u8)
    requires
        binding < 16,
        kind < 16,
    ensures
        ((binding * 16 + kind) as u8) >> 4 == binding,
        ((binding * 16 + kind) as u8) & 0xf == kind,
{
    let info = (binding * 16 + kind) as u8;
    assert(info >> 4 == binding && info & 0xf == kind) by (bit_vector)
        requires
            binding < 16,
            kind < 16,
            info == binding * 16 + kind,
    ;
}

proof fn lemma_versym(version: u16)
    requires
        version < 0x8000,
    ensures
        version & 0x7fff == version,
        version & 0x8000 == 0,
        ((version + 0x8000) as u16) & 0x7fff == version,
        ((version + 0x8000) as u16) & 0x8000 != 0,
{
    let hidden = (version + 0x8000) as u16;
    assert(version & 0x7fff == version && version & 0x8000 == 0) by (bit_vector)
        requires
            version < 0x8000,
    ;
    assert(hidden & 0x7fff == version && hidden & 0x8000 != 0) by (bit_vector)
        requires
            version < 0x8000,
            hidden == version + 0x8000,
    ;
}

/// The bytes of `d` are the table of these symbols, behind the reserved entry 0,
/// and `.gnu.version`, where there is one, has their versions.
pub open spec fn symbols_written(
    d: Image,
    strtab: Seq<u8>,
    versym: Option<Seq<u8>>,
    symbols: Seq<WrittenSymbol>,
) -> bool {
    &&& d.data.len() as int / symbol_size(d.class) as int == symbols.len() + 1
    &&& forall|k: int|
        0 <= k < symbols.len() ==> {
            &&& (#[trigger] symbols[k]).fits(d.class)
            &&& symbols[k].written(d, (k + 1) * symbol_size(d.class))
            &&& text_at(strtab, symbols[k].name as int, symbols[k].text)
            &&& versym is Some ==> holds(
                d.over(versym->Some_0),
                (k + 1) * 2,
                2,
                symbols[k].versym() as nat,
            )
        }
}

/// The versions of an object that has `.gnu.version`.
pub open spec fn used_versions(versym: Option<Seq<u8>>, table: Versions) -> Option<Versions> {
    match versym {
        Some(_) => Some(table),
        None => None,
    }
}

/// The symbols that a reader should see.
pub open spec fn symbols_read(symbols: Seq<WrittenSymbol>, table: Option<Versions>) -> Seq<
    SymbolModel,
> {
    symbols.map_values(|s: WrittenSymbol| s.read_back(table))
}

proof fn lemma_symbols(
    d: Image,
    strtab: Seq<u8>,
    versym: Option<Seq<u8>>,
    table: Versions,
    symbols: Seq<WrittenSymbol>,
    i: int,
    done: Seq<SymbolModel>,
)
    requires
        1 <= i <= symbols.len() + 1,
        symbols_written(d, strtab, versym, symbols),
        done == symbols_read(symbols, used_versions(versym, table)).take(i - 1),
    ensures
        symbols_from(d, strtab, versym, table, i, done) == Ok::<Seq<SymbolModel>, ElfError>(
            symbols_read(symbols, used_versions(versym, table)),
        ),
    decreases symbols.len() + 1 - i,
{
    let all = symbols_read(symbols, used_versions(versym, table));
    if i == symbols.len() + 1 {
        assert(done =~= all);
    } else {
        let s = symbols[i - 1];
        let at = i * symbol_size(d.class);
        law_symbol_entry_round_trip(s, d, at);
        law_string_round_trip(strtab, s.name, s.text, "symbol name");
        lemma_info(s.binding, s.kind);
        lemma_versym(s.version);
        if let Some(v) = versym {
            law_field_round_trip(d.over(v), i * 2, 2, s.versym() as nat);
        }
        let entry = symbol_entry(d, at);
        let next = SymbolModel {
            name: s.text,
            binding: binding_of(entry.info >> 4),
            kind: type_of(entry.info & 0xf),
            section_index: entry.section_index,
            value: entry.value,
            size: entry.size,
            version: symbol_version(d, versym, table, i),
        };
        assert(next == all[i - 1]);
        assert(done.push(next) =~= all.take(i));
        lemma_symbols(d, strtab, versym, table, symbols, i + 1, done.push(next));
    }
}

/// Every symbol that was written into a symbol table is read back with its
/// name, binding, type, section, value, size and version, in either class and
/// byte order.
pub proof fn law_symbols_round_trip(
    d: Image,
    strtab: Seq<u8>,
    versym: Option<Seq<u8>>,
    table: Versions,
    symbols: Seq<WrittenSymbol>,
)
    requires
        symbols_written(d, strtab, versym, symbols),
    ensures
        symbols_from(d, strtab, versym, table, 1, Seq::empty()) == Ok::<
            Seq<SymbolModel>,
            ElfError,
        >(symbols_read(symbols, used_versions(versym, table))),
{
    assert(symbols_read(symbols, used_versions(versym, table)).take(0) =~= Seq::empty());
    lemma_symbols(d, strtab, versym, table, symbols, 1, Seq::empty());
}

pub proof fn lemma_u32_in(d: Image, off: int, delta: u64, v: nat, what: &'static str)
    requires
        d.data.len() <= u64::MAX,
        0 <= off,
        holds(d, off + delta, 4, v),
    ensures
        off + delta <= u64::MAX,
        v <= u32::MAX,
        u32_in(d, off as u64, delta, what) == Ok::<u32, ElfError>(v as u32),
{
    law_field_round_trip(d, off + delta, 4, v);
    reveal_with_fuel(bound, 5);
}

pub proof fn lemma_u16_in(d: Image, off: int, delta: u64, v: nat, what: &'static str)
    requires
        d.data.len() <= u64::MAX,
        0 <= off,
        holds(d, off + delta, 2, v),
    ensures
        off + delta <= u64::MAX,
        v <= u16::MAX,
        u16_in(d, off as u64, delta, what) == Ok::<u16, ElfError>(v as u16),
{
    law_field_round_trip(d, off + delta, 2, v);
    reveal_with_fuel(bound, 3);
}

/// A version that an object needs of another, as a linker writes it.
pub struct WrittenAux {
    pub at: int,
    pub index: u16,
    /// Offset of the version's name in the string table.
    pub name: u32,
    pub text: Seq<char>,
}

/// The versions that an object needs of one file, as a linker writes them.
pub struct WrittenNeed {
    pub at: int,
    /// Offset of the file's name in the string table.
    pub file: u32,
    pub text: Seq<char>,
    pub aux: Seq<WrittenAux>,
}

/// How far a record lies behind the `k`th; 0 after the last.
pub open spec fn next_aux(aux: Seq<WrittenAux>, k: int) -> int {
    if k + 1 < aux.len() {
        aux[k + 1].at - aux[k].at
    } else {
        0
    }
}

/// The bytes of `d` hold the auxiliary records, each chained to the next.
pub open spec fn aux_written(d: Image, names: Seq<u8>, aux: Seq<WrittenAux>) -> bool {
    forall|k: int|
        0 <= k < aux.len() ==> {
            &&& 0 <= (#[trigger] aux[k]).at
            &&& aux[k].index < 0x8000
            &&& text_at(names, aux[k].name as int, aux[k].text)
            &&& holds(d, aux[k].at + 6, 2, aux[k].index as nat)
            &&& holds(d, aux[k].at + 8, 4, aux[k].name as nat)
            &&& holds(d, aux[k].at + 12, 4, next_aux(aux, k) as nat)
            &&& k + 1 < aux.len() ==> aux[k].at + 16 <= aux[k + 1].at
        }
}

/// The table after the auxiliary records from the `k`th on.
pub open spec fn aux_versions(
    file: Seq<char>,
    aux: Seq<WrittenAux>,
    k: int,
    table: Versions,
) -> Versions
    decreases aux.len() - k,
{
    if k >= aux.len() {
        table
    } else {
        aux_versions(file, aux, k + 1, table.insert(aux[k].index, (aux[k].text, Some(file))))
    }
}

proof fn lemma_aux(
    d: Image,
    names: Seq<u8>,
    file: Seq<char>,
    aux: Seq<WrittenAux>,
    k: int,
    table: Versions,
)
    requires
        d.data.len() <= u64::MAX,
        aux_written(d, names, aux),
        0 <= k < aux.len(),
    ensures
        vernaux_from(d, names, file, aux[k].at as u64, (aux.len() - k) as nat, table) == Ok::<
            Versions,
            ElfError,
        >(aux_versions(file, aux, k, table)),
    decreases aux.len() - k,
{
    let a = aux[k];
    lemma_u16_in(d, a.at, 6, a.index as nat, "vna_other");
    lemma_u32_in(d, a.at, 8, a.name as nat, "vna_name");
    lemma_u32_in(d, a.at, 12, next_aux(aux, k) as nat, "vna_next");
    lemma_versym(a.index);
    law_string_round_trip(names, a.name, a.text, "vna_name");
    let more = table.insert(a.index, (a.text, Some(file)));
    if k + 1 < aux.len() {
        lemma_u16_in(d, aux[k + 1].at, 6, aux[k + 1].index as nat, "vna_other");
        lemma_aux(d, names, file, aux, k + 1, more);
    } else {
        assert(aux_versions(file, aux, k + 1, more) == more);
    }
}

proof fn lemma_aux_spread(d: Image, names: Seq<u8>, aux: Seq<WrittenAux>, k: int)
    requires
        aux_written(d, names, aux),
        0 <= k < aux.len(),
    ensures
        aux[k].at >= 16 * k,
    decreases k,
{
    if k > 0 {
        lemma_aux_spread(d, names, aux, k - 1);
        assert(aux[k - 1].at + 16 <= aux[k].at);
    }
}

/// How far a record lies behind the `k`th; 0 after the last.
pub open spec fn next_need(needs: Seq<WrittenNeed>, k: int) -> int {
    if k + 1 < needs.len() {
        needs[k + 1].at - needs[k].at
    } else {
        0
    }
}

/// How far the first auxiliary record lies behind its record.
pub open spec fn first_aux(need: WrittenNeed) -> int {
    if need.aux.len() > 0 {
        need.aux[0].at - need.at
    } else {
        0
    }
}

/// The bytes of `d` hold the records of a `.gnu.version_r` section, each
/// chained to the next.
pub open spec fn needs_written(d: Image, names: Seq<u8>, needs: Seq<WrittenNeed>) -> bool {
    forall|k: int|
        0 <= k < needs.len() ==> {
            &&& 0 <= (#[trigger] needs[k]).at
            &&& text_at(names, needs[k].file as int, needs[k].text)
            &&& holds(d, needs[k].at + 2, 2, needs[k].aux.len())
            &&& holds(d, needs[k].at + 4, 4, needs[k].file as nat)
            &&& holds(d, needs[k].at + 8, 4, first_aux(needs[k]) as nat)
            &&& holds(d, needs[k].at + 12, 4, next_need(needs, k) as nat)
            &&& aux_written(d, names, needs[k].aux)
            &&& needs[k].aux.len() > 0 ==> needs[k].at <= needs[k].aux[0].at
            &&& k + 1 < needs.len() ==> needs[k].at + 16 <= needs[k + 1].at
        }
}

/// The table after the version-need records from the `k`th on.
pub open spec fn need_versions(needs: Seq<WrittenNeed>, k: int, table: Versions) -> Versions
    decreases needs.len() - k,
{
    if k >= needs.len() {
        table
    } else {
        need_versions(needs, k + 1, aux_versions(needs[k].text, needs[k].aux, 0, table))
    }
}

proof fn lemma_needs(
    d: Image,
    names: Seq<u8>,
    needs: Seq<WrittenNeed>,
    k: int,
    table: Versions,
)
    requires
        d.data.len() <= u64::MAX,
        needs_written(d, names, needs),
        0 <= k < needs.len(),
    ensures
        verneed_from(d, names, needs[k].at as u64, (needs.len() - k) as nat, table) == Ok::<
            Versions,
            ElfError,
        >(need_versions(needs, k, table)),
    decreases needs.len() - k,
{
    let n = needs[k];
    lemma_u16_in(d, n.at, 2, n.aux.len(), "vn_cnt");
    lemma_u32_in(d, n.at, 4, n.file as nat, "vn_file");
    lemma_u32_in(d, n.at, 8, first_aux(n) as nat, "vn_aux");
    lemma_u32_in(d, n.at, 12, next_need(needs, k) as nat, "vn_next");
    law_string_round_trip(names, n.file, n.text, "vn_file");
    let more = aux_versions(n.text, n.aux, 0, table);
    if n.aux.len() > 0 {
        let last = n.aux.len() - 1;
        lemma_aux_spread(d, names, n.aux, last);
        law_field_round_trip(d, n.aux[last].at + 6, 2, n.aux[last].index as nat);
        lemma_u16_in(d, n.aux[0].at, 6, n.aux[0].index as nat, "vna_other");
        assert(n.aux.len() <= verneed_limit(d));
        lemma_aux(d, names, n.text, n.aux, 0, table);
    } else {
        assert(more == table);
    }
    if k + 1 < needs.len() {
        lemma_u16_in(d, needs[k + 1].at, 2, needs[k + 1].aux.len(), "vn_cnt");
        lemma_needs(d, names, needs, k + 1, more);
    } else {
        assert(need_versions(needs, k + 1, more) == more);
    }
}

proof fn lemma_needs_spread(d: Image, names: Seq<u8>, needs: Seq<WrittenNeed>, k: int)
    requires
        needs_written(d, names, needs),
        0 <= k < needs.len(),
    ensures
        needs[k].at >= 16 * k,
    decreases k,
{
    if k > 0 {
        lemma_needs_spread(d, names, needs, k - 1);
        assert(needs[k - 1].at + 16 <= needs[k].at);
    }
}

/// Every needed version that was written into a `.gnu.version_r` section is read
/// back under its index, with its name and the file that provides it.
pub proof fn law_needed_versions_round_trip(
    d: Image,
    names: Seq<u8>,
    needs: Seq<WrittenNeed>,
    table: Versions,
)
    requires
        d.data.len() <= u64::MAX,
        needs.len() > 0,
        needs[0].at == 0,
        needs_written(d, names, needs),
    ensures
        verneed_from(d, names, 0, at_most(needs.len(), verneed_limit(d)), table) == Ok::<
            Versions,
            ElfError,
        >(need_versions(needs, 0, table)),
{
    let last = needs.len() - 1;
    lemma_needs_spread(d, names, needs, last);
    law_field_round_trip(d, needs[last].at + 2, 2, needs[last].aux.len());
    lemma_needs(d, names, needs, 0, table);
}

/// A version that an object defines, as a linker writes it.
pub struct WrittenDef {
    pub at: int,
    pub index: u16,
    /// The version's own name and those of its parents.
    pub count: u16,
    pub name_at: int,
    /// Offset of the version's name in the string table.
    pub name: u32,
    pub text: Seq<char>,
}

/// How far a record lies behind the `k`th; 0 after the last.
pub open spec fn next_def(defs: Seq<WrittenDef>, k: int) -> int {
    if k + 1 < defs.len() {
        defs[k + 1].at - defs[k].at
    } else {
        0
    }
}

/// The bytes of `d` hold the records of a `.gnu.version_d` section, each
/// chained to the next.
pub open spec fn defs_written(d: Image, names: Seq<u8>, defs: Seq<WrittenDef>) -> bool {
    forall|k: int|
        0 <= k < defs.len() ==> {
            &&& 0 <= (#[trigger] defs[k]).at <= defs[k].name_at
            &&& defs[k].index < 0x8000
            &&& defs[k].count >= 1
            &&& text_at(names, defs[k].name as int, defs[k].text)
            &&& holds(d, defs[k].at + 4, 2, defs[k].index as nat)
            &&& holds(d, defs[k].at + 6, 2, defs[k].count as nat)
            &&& holds(d, defs[k].at + 12, 4, (defs[k].name_at - defs[k].at) as nat)
            &&& holds(d, defs[k].at + 16, 4, next_def(defs, k) as nat)
            &&& holds(d, defs[k].name_at, 4, defs[k].name as nat)
            &&& k + 1 < defs.len() ==> defs[k].at + 20 <= defs[k + 1].at
        }
}

/// The table after the version definitions from the `k`th on.
pub open spec fn def_versions(defs: Seq<WrittenDef>, k: int, table: Versions) -> Versions
    decreases defs.len() - k,
{
    if k >= defs.len() {
        table
    } else {
        def_versions(defs, k + 1, table.insert(defs[k].index, (defs[k].text, None)))
    }
}

proof fn lemma_defs(d: Image, names: Seq<u8>, defs: Seq<WrittenDef>, k: int, table: Versions)
    requires
        d.data.len() <= u64::MAX,
        defs_written(d, names, defs),
        0 <= k < defs.len(),
    ensures
        verdef_from(d, names, defs[k].at as u64, (defs.len() - k) as nat, table) == Ok::<
            Versions,
            ElfError,
        >(def_versions(defs, k, table)),
    decreases defs.len() - k,
{
    let v = defs[k];
    lemma_u16_in(d, v.at, 4, v.index as nat, "vd_ndx");
    lemma_u16_in(d, v.at, 6, v.count as nat, "vd_cnt");
    lemma_u32_in(d, v.at, 12, (v.name_at - v.at) as nat, "vd_aux");
    lemma_u32_in(d, v.at, 16, next_def(defs, k) as nat, "vd_next");
    lemma_u32_in(d, v.name_at, 0, v.name as nat, "vda_name");
    lemma_versym(v.index);
    law_string_round_trip(names, v.name, v.text, "vda_name");
    let more = table.insert(v.index, (v.text, None));
    if k + 1 < defs.len() {
        lemma_u16_in(d, defs[k + 1].at, 4, defs[k + 1].index as nat, "vd_ndx");
        lemma_defs(d, names, defs, k + 1, more);
    } else {
        assert(def_versions(defs, k + 1, more) == more);
    }
}

proof fn lemma_defs_spread(d: Image, names: Seq<u8>, defs: Seq<WrittenDef>, k: int)
    requires
        defs_written(d, names, defs),
        0 <= k < defs.len(),
    ensures
        defs[k].at >= 20 * k,
    decreases k,
{
    if k > 0 {
        lemma_defs_spread(d, names, defs, k - 1);
        assert(defs[k - 1].at + 20 <= defs[k].at);
    }
}

/// Every version that was written into a `.gnu.version_d` section is read back
/// under its index, with its name.
pub proof fn law_defined_versions_round_trip(
    d: Image,
    names: Seq<u8>,
    defs: Seq<WrittenDef>,
    table: Versions,
)
    requires
        d.data.len() <= u64::MAX,
        defs.len() > 0,
        defs[0].at == 0,
        defs_written(d, names, defs),
    ensures
        verdef_from(d, names, 0, at_most(defs.len(), verdef_limit(d)), table) == Ok::<
            Versions,
            ElfError,
        >(def_versions(defs, 0, table)),
{
    let last = defs.len() - 1;
    lemma_defs_spread(d, names, defs, last);
    law_field_round_trip(d, defs[last].at + 16, 4, next_def(defs, last) as nat);
    lemma_defs(d, names, defs, 0, table);
}

proof fn lemma_named_length(
    names: Seq<u8>,
    raw: Seq<(u32, SectionModel)>,
    i: int,
    done: Seq<SectionModel>,
)
    requires
        0 <= i <= raw.len(),
        done.len() == i,
        named_from(names, raw, i, done) is Ok,
    ensures
        named_from(names, raw, i, done)->Ok_0.len() == raw.len(),
    decreases raw.len() - i,
{
    if i < raw.len() {
        let name = cstring(names, raw[i].0, "section name")->Ok_0;
        lemma_named_length(names, raw, i + 1, done.push(SectionModel { name, ..raw[i].1 }));
    }
}

proof fn lemma_symbols_length(
    d: Image,
    strtab: Seq<u8>,
    versym: Option<Seq<u8>>,
    table: Versions,
    i: int,
    done: Seq<SymbolModel>,
)
    requires
        1 <= i,
        done.len() == i - 1,
        done.len() * symbol_size(d.class) <= d.data.len(),
        symbols_from(d, strtab, versym, table, i, done) is Ok,
    ensures
        symbols_from(d, strtab, versym, table, i, done)->Ok_0.len() * symbol_size(d.class)
            <= d.data.len(),
    decreases d.data.len() - i,
{
    let size = symbol_size(d.class) as int;
    if i < d.data.len() as int / size {
        assert(i * size <= d.data.len() && i < d.data.len()) by (nonlinear_arith)
            requires
                1 <= i < d.data.len() as int / size,
                size == 16 || size == 24,
        ;
        let entry = symbol_entry(d, i * size);
        let next = SymbolModel {
            name: cstring(strtab, entry.name, "symbol name")->Ok_0,
            binding: binding_of(entry.info >> 4),
            kind: type_of(entry.info & 0xf),
            section_index: entry.section_index,
            value: entry.value,
            size: entry.size,
            version: symbol_version(d, versym, table, i),
        };
        lemma_symbols_length(d, strtab, versym, table, i + 1, done.push(next));
    }
}

proof fn lemma_needed_length(d: Image, strtab: Seq<u8>, i: int, found: DynamicModel)
    requires
        0 <= i,
        found.needed.len() <= i,
        i * (2 * d.word_size()) <= d.data.len(),
        dynamic_from(d, strtab, i, found) is Ok,
    ensures
        dynamic_from(d, strtab, i, found)->Ok_0.needed.len() * (2 * d.word_size())
            <= d.data.len(),
    decreases d.data.len() - i,
{
    let w = d.word_size() as int;
    if i < d.data.len() as int / (2 * w) {
        assert((i + 1) * (2 * w) <= d.data.len() && i < d.data.len()) by (nonlinear_arith)
            requires
                0 <= i < d.data.len() as int / (2 * w),
                w == 4 || w == 8,
        ;
        let tag = d.word_field(i * 2 * w);
        let val = d.word_field(i * 2 * w + w);
        if tag == DT_NEEDED {
            let s = dynamic_string(strtab, val, "DT_NEEDED")->Ok_0;
            lemma_needed_length(
                d,
                strtab,
                i + 1,
                DynamicModel { needed: found.needed.push(s), ..found },
            );
        } else if tag == DT_SONAME {
            let s = dynamic_string(strtab, val, "DT_SONAME")->Ok_0;
            lemma_needed_length(d, strtab, i + 1, DynamicModel { soname: Some(s), ..found });
        } else if tag == DT_RPATH {
            let s = dynamic_string(strtab, val, "DT_RPATH")->Ok_0;
            lemma_needed_length(d, strtab, i + 1, DynamicModel { rpath: Some(s), ..found });
        } else if tag == DT_RUNPATH {
            let s = dynamic_string(strtab, val, "DT_RUNPATH")->Ok_0;
            lemma_needed_length(d, strtab, i + 1, DynamicModel { runpath: Some(s), ..found });
        } else if tag != DT_NULL {
            lemma_needed_length(d, strtab, i + 1, found);
        }
    }
    assert(found.needed.len() * (2 * w) <= i * (2 * w)) by (nonlinear_arith)
        requires
            found.needed.len() <= i,
            w == 4 || w == 8,
    ;
}

/// How a file's identification says to read it.
pub open spec fn image_of(data: Seq<u8>) -> Image {
    Image {
        data,
        class: if data[4] == 1 {
            Class::Elf32
        } else {
            Class::Elf64
        },
        endian: if data[5] == 1 {
            Endian::Little
        } else {
            Endian::Big
        },
    }
}

/// Whatever counts its headers claim, a file that parses is at least as large as
/// each table that was read from it.
pub proof fn law_tables_fit_the_file(data: Seq<u8>)
    requires
        elf_model(data) is Ok,
    ensures
        elf_model(data)->Ok_0.sections.len() * section_header_size(image_of(data)) <= data.len(),
        elf_model(data)->Ok_0.segments.len() * program_header_size(image_of(data)) <= data.len(),
        elf_model(data)->Ok_0.symbols.len() * symbol_size(image_of(data).class) <= data.len(),
        elf_model(data)->Ok_0.needed.len() * (2 * image_of(data).word_size()) <= data.len(),
{
    reveal(image_model);
    let img = image_of(data);
    let h = header(img);
    let m = image_model(img)->Ok_0;
    let raw = raw_sections(img)->Ok_0;
    let bare = raw.map_values(|p: (u32, SectionModel)| p.1);
    let index = name_table_index(img);
    if raw.len() != 0 && index != 0 {
        let s = section_at(bare, index, "e_shstrndx")->Ok_0;
        let names = section_data(img, s, "section name table")->Ok_0;
        lemma_named_length(names, raw, 0, Seq::empty());
    }
    assert(m.sections.len() == raw.len());
    if raw.len() > 0 {
        let e = h.shentsize as int;
        assert(raw.len() * section_header_size(img) <= raw.len() * e) by (nonlinear_arith)
            requires
                section_header_size(img) <= e,
        ;
    }
    if m.segments.len() > 0 {
        let e = h.phentsize as int;
        assert(m.segments.len() * program_header_size(img) <= m.segments.len() * e)
            by (nonlinear_arith)
            requires
                program_header_size(img) <= e,
        ;
    }
    if let Some(s) = find_section(m.sections, SHT_DYNSYM, 0) {
        let body = section_data(img, s, ".dynsym")->Ok_0;
        let t = section_at(m.sections, s.link as u64, ".dynsym sh_link")->Ok_0;
        let strtab = section_data(img, t, ".dynsym string table")->Ok_0;
        let versym = versym_data(img, m.sections)->Ok_0;
        let table = versions_from(img, m.sections, 0, Map::empty())->Ok_0;
        lemma_symbols_length(img.over(body), strtab, versym, table, 1, Seq::empty());
    }
    if let Some(s) = find_section(m.sections, SHT_DYNAMIC, 0) {
        let body = section_data(img, s, ".dynamic")->Ok_0;
        let t = section_at(m.sections, s.link as u64, ".dynamic sh_link")->Ok_0;
        let strtab = section_data(img, t, ".dynamic string table")->Ok_0;
        lemma_needed_length(img.over(body), strtab, 0, no_dynamic());
    }
}

/// A string as the reader keeps them: long enough, and of printable characters.
pub open spec fn is_kept_string(t: Seq<char>) -> bool {
    t.len() >= min_string_len() && forall|i: int|
        0 <= i < t.len() ==> ' ' <= (#[trigger] t[i]) && t[i] <= '~'
}

proof fn lemma_strings_finite(data: Seq<u8>, limit: int)
    requires
        0 <= limit,
    ensures
        strings_before(data, limit).finite(),
    decreases limit,
{
    if limit == 0 {
        assert(strings_before(data, 0) =~= Set::empty());
    } else {
        let end = limit - 1;
        lemma_strings_finite(data, end);
        let rest = strings_before(data, end);
        if exists|a: int| string_between(data, a, end) {
            let a = choose|a: int| string_between(data, a, end);
            let all = rest.insert(ascii(data.subrange(a, end)));
            assert forall|t: Seq<char>| strings_before(data, limit).contains(t) implies all.contains(
                t,
            ) by {
                let (x, y) = choose|x: int, y: int|
                    #[trigger] string_between(data, x, y) && y < limit && t == ascii(
                        data.subrange(x, y),
                    );
                if y == end && x != a {
                    if x < a {
                        assert(is_printable(data[a - 1]));
                    } else {
                        assert(is_printable(data[x - 1]));
                    }
                }
            }
            assert(strings_before(data, limit) =~= all);
        } else {
            assert(strings_before(data, limit) =~= rest);
        }
    }
}

proof fn lemma_strings_in(data: Seq<u8>)
    ensures
        strings_in(data).finite(),
        forall|t: Seq<char>| strings_in(data).contains(t) ==> is_kept_string(t),
{
    lemma_strings_finite(data, data.len() as int);
    assert(strings_in(data) =~= strings_before(data, data.len() as int));
    assert forall|t: Seq<char>| strings_in(data).contains(t) implies is_kept_string(t) by {
        let (a, b) = choose|a: int, b: int|
            #[trigger] string_between(data, a, b) && t == ascii(data.subrange(a, b));
        assert forall|i: int| 0 <= i < t.len() implies ' ' <= (#[trigger] t[i]) && t[i] <= '~' by {
            assert(is_printable(data[a + i]));
        }
    }
}

proof fn lemma_strings_from(
    img: Image,
    sections: Seq<SectionModel>,
    i: int,
    found: Set<Seq<char>>,
)
    requires
        0 <= i,
        found.finite(),
        forall|t: Seq<char>| found.contains(t) ==> is_kept_string(t),
        strings_from(img, sections, i, found) is Ok,
    ensures
        strings_from(img, sections, i, found)->Ok_0.finite(),
        forall|t: Seq<char>|
            strings_from(img, sections, i, found)->Ok_0.contains(t) ==> is_kept_string(t),
    decreases sections.len() - i,
{
    if i < sections.len() {
        if is_read_only_data(sections[i]) {
            let data = section_data(img, sections[i], "read-only data section")->Ok_0;
            lemma_strings_in(data);
            lemma_strings_from(img, sections, i + 1, found.union(strings_in(data)));
        } else {
            lemma_strings_from(img, sections, i + 1, found);
        }
    }
}

/// A file holds finitely many strings.
pub proof fn lemma_file_strings_finite(img: Image, sections: Seq<SectionModel>)
    requires
        strings_from(img, sections, 0, Set::empty()) is Ok,
    ensures
        strings_from(img, sections, 0, Set::empty())->Ok_0.finite(),
{
    lemma_strings_from(img, sections, 0, Set::empty());
}

/// The strings of a parsed file are sorted, none occurs twice, and each is
/// printable and at least four characters long.
pub proof fn law_strings_are_sorted_and_printable(data: Seq<u8>)
    requires
        elf_model(data) is Ok,
    ensures
        ascending::<String>(elf_model(data)->Ok_0.rodata_strings),
        forall|i: int|
            0 <= i < elf_model(data)->Ok_0.rodata_strings.len() ==> is_kept_string(
                #[trigger] elf_model(data)->Ok_0.rodata_strings[i],
            ),
{
    reveal(image_model);
    let img = image_of(data);
    let m = image_model(img)->Ok_0;
    lemma_strings_from(img, m.sections, 0, Set::empty());
    let found = strings_from(img, m.sections, 0, Set::empty())->Ok_0;
    lemma_in_order_ascending::<String>(found);
    assert forall|i: int| 0 <= i < m.rodata_strings.len() implies is_kept_string(
        #[trigger] m.rodata_strings[i],
    ) by {
        assert(m.rodata_strings.to_set().contains(m.rodata_strings[i]));
    }
}

} // verus!
