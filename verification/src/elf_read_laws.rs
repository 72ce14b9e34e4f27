//! Laws of the ELF reader over the bytes of any file that it accepts.

use crate::elf::{ElfError, SHF_ALLOC, SHF_EXECINSTR, SHF_WRITE, SHT_NOBITS, SHT_PROGBITS};
use crate::elf_laws::image_of;
use crate::elf_model::{
    elf_model, image_model, is_printable, is_read_only_data, section_data, string_between,
    strings_from, strings_in, Image, SectionModel,
};
use crate::order::lemma_in_order_ascending;
use crate::text::ascii;
use vstd::prelude::*;

verus! {

/// Stored in the file (type 1), loaded (flag bit 1 set), and neither writable nor
/// executable (flag bits 0 and 2 clear); all other flag bits are free.
pub open spec fn is_constant_data(s: SectionModel) -> bool {
    &&& s.kind == 1
    &&& s.flags as int % 2 == 0
    &&& (s.flags as int / 2) % 2 == 1
    &&& (s.flags as int / 4) % 2 == 0
}

/// The bytes from `a` up to `b` of a file are a whole C string inside a section: they
/// start at the section or behind a NUL, a NUL follows them, and they are at least
/// four printable characters, which spell `t`.
pub open spec fn is_c_string(data: Seq<u8>, s: SectionModel, a: int, b: int, t: Seq<char>) -> bool {
    &&& s.offset <= a
    &&& a + 4 <= b
    &&& b < s.offset + s.size <= data.len()
    &&& data[b] == 0
    &&& a == s.offset || data[a - 1] == 0
    &&& t.len() == b - a
    &&& forall|j: int|
        0 <= j < t.len() ==> 32 <= (#[trigger] t[j]) as int && t[j] as int <= 126 && t[j] as int
            == data[a + j] as int
}

/// Some read-only data section of a file holds a C string.
pub open spec fn is_stored(data: Seq<u8>, sections: Seq<SectionModel>, t: Seq<char>) -> bool {
    exists|i: int, a: int, b: int|
        0 <= i < sections.len() && is_constant_data(sections[i]) && #[trigger] is_c_string(
            data,
            sections[i],
            a,
            b,
            t,
        )
}

proof fn lemma_flags(s: SectionModel)
    ensures
        is_read_only_data(s) == is_constant_data(s),
{
    let f = s.flags;
    assert((f & 2 != 0) == ((f / 2) % 2 == 1)) by (bit_vector);
    assert((f & 5 == 0) == (f % 2 == 0 && (f / 4) % 2 == 0)) by (bit_vector);
    assert(1u64 | 4u64 == 5u64) by (bit_vector);
    assert(SHF_ALLOC == 2 && SHF_WRITE == 1 && SHF_EXECINSTR == 4 && SHT_PROGBITS == 1);
}

proof fn lemma_section_strings(data: Seq<u8>, s: SectionModel, t: Seq<char>)
    requires
        s.offset + s.size <= data.len(),
    ensures
        strings_in(data.subrange(s.offset as int, s.offset + s.size)).contains(t) <==> exists|
            a: int,
            b: int,
        | #[trigger]
            is_c_string(data, s, a, b, t),
{
    let o = s.offset as int;
    let body = data.subrange(o, o + s.size);
    if strings_in(body).contains(t) {
        let (a, b) = choose|a: int, b: int|
            #[trigger] string_between(body, a, b) && t == ascii(body.subrange(a, b));
        assert forall|j: int| 0 <= j < t.len() implies 32 <= (#[trigger] t[j]) as int && t[j] as int
            <= 126 && t[j] as int == data[o + a + j] as int by {
            assert(is_printable(body[a + j]));
        }
        if a != 0 {
            assert(body[a - 1] == data[o + a - 1]);
        }
        assert(is_c_string(data, s, o + a, o + b, t));
    }
    if exists|a: int, b: int| #[trigger] is_c_string(data, s, a, b, t) {
        let (a, b) = choose|a: int, b: int| #[trigger] is_c_string(data, s, a, b, t);
        assert forall|j: int| a - o <= j < b - o implies is_printable(#[trigger] body[j]) by {
            assert(t[j - (a - o)] as int == data[a + (j - (a - o))] as int);
        }
        if a != o {
            assert(body[a - o - 1] == data[a - 1]);
        }
        assert(string_between(body, a - o, b - o));
        assert(t =~= ascii(body.subrange(a - o, b - o)));
    }
}

proof fn lemma_strings_found(
    img: Image,
    sections: Seq<SectionModel>,
    i: int,
    found: Set<Seq<char>>,
    t: Seq<char>,
)
    requires
        0 <= i <= sections.len(),
        img.data.len() <= u64::MAX,
        strings_from(img, sections, i, found) is Ok,
    ensures
        strings_from(img, sections, i, found)->Ok_0.contains(t) <==> found.contains(t) || exists|
            k: int,
            a: int,
            b: int,
        |
            i <= k < sections.len() && is_constant_data(sections[k]) && #[trigger] is_c_string(
                img.data,
                sections[k],
                a,
                b,
                t,
            ),
    decreases sections.len() - i,
{
    if i < sections.len() {
        let s = sections[i];
        lemma_flags(s);
        let more = if is_read_only_data(s) {
            let body = section_data(img, s, "read-only data section")->Ok_0;
            assert(s.kind != SHT_NOBITS);
            lemma_section_strings(img.data, s, t);
            found.union(strings_in(body))
        } else {
            found
        };
        lemma_strings_found(img, sections, i + 1, more, t);
        if exists|k: int, a: int, b: int|
            i <= k < sections.len() && is_constant_data(sections[k]) && #[trigger] is_c_string(
                img.data,
                sections[k],
                a,
                b,
                t,
            ) {
            let (k, a, b) = choose|k: int, a: int, b: int|
                i <= k < sections.len() && is_constant_data(sections[k]) && #[trigger] is_c_string(
                    img.data,
                    sections[k],
                    a,
                    b,
                    t,
                );
            if k > i {
                assert(i + 1 <= k && is_c_string(img.data, sections[k], a, b, t));
            }
        }
        if is_constant_data(s) && exists|a: int, b: int| #[trigger]
            is_c_string(img.data, s, a, b, t) {
            let (a, b) = choose|a: int, b: int| #[trigger] is_c_string(img.data, s, a, b, t);
            assert(is_c_string(img.data, sections[i], a, b, t));
        }
    }
}

/// The strings of a parsed file are exactly the C strings that stand in its read-only
/// data sections, whatever other flags those have.
pub proof fn law_strings_are_those_of_read_only_data(data: Seq<u8>, t: Seq<char>)
    requires
        elf_model(data) is Ok,
        data.len() <= u64::MAX,
    ensures
        elf_model(data)->Ok_0.rodata_strings.contains(t) <==> is_stored(
            data,
            elf_model(data)->Ok_0.sections,
            t,
        ),
{
    reveal(image_model);
    let img = image_of(data);
    let m = elf_model(data)->Ok_0;
    assert(Ok::<crate::elf_model::ElfModel, ElfError>(m) == image_model(img));
    let found = strings_from(img, m.sections, 0, Set::empty())->Ok_0;
    lemma_strings_found(img, m.sections, 0, Set::empty(), t);
    crate::elf_laws::lemma_file_strings_finite(img, m.sections);
    lemma_in_order_ascending::<String>(found);
    assert(m.rodata_strings.to_set().contains(t) == found.contains(t));
    if found.contains(t) {
        let (k, a, b) = choose|k: int, a: int, b: int|
            0 <= k < m.sections.len() && is_constant_data(m.sections[k]) && #[trigger] is_c_string(
                img.data,
                m.sections[k],
                a,
                b,
                t,
            );
        assert(is_c_string(data, m.sections[k], a, b, t));
    }
}

} // verus!
