//! A file is read by offsets and lengths alone, so bytes behind the end of a file
//! that parses make no difference.

use crate::elf::{
    Segment, PT_INTERP, SHT_DYNAMIC, SHT_DYNSYM, SHT_GNU_VERDEF, SHT_GNU_VERNEED, SHT_GNU_VERSYM,
};
use crate::elf_laws::image_of;
use crate::elf_model::{
    dynamic, dynsym, elf_model, find_section, find_segment, header, header_size, image_model,
    interpreter, is_read_only_data, name_table_index, named_sections, program_header,
    program_header_size, raw_sections, rodata_strings, section_at, section_data, section_header,
    section_header_size, section_zero, segment_count, segments, strings_from, strings_in,
    version_section, versions_from, versym_data, Image, SectionModel, Versions,
};
use vstd::prelude::*;

verus! {

/// The image with more bytes behind it.
pub open spec fn extended(img: Image, tail: Seq<u8>) -> Image {
    img.over(img.data + tail)
}

proof fn lemma_field(img: Image, tail: Seq<u8>, at: int, n: int)
    requires
        0 <= at,
        0 <= n,
        at + n <= img.data.len(),
    ensures
        extended(img, tail).field(at, n) == img.field(at, n),
        extended(img, tail).fits(at, n),
{
    assert((img.data + tail).subrange(at, at + n) =~= img.data.subrange(at, at + n));
}

proof fn lemma_bytes(img: Image, tail: Seq<u8>, offset: u64, len: u64, what: &'static str)
    requires
        img.bytes(offset, len, what) is Ok,
    ensures
        extended(img, tail).bytes(offset, len, what) == img.bytes(offset, len, what),
{
    assert((img.data + tail).subrange(offset as int, offset + len) =~= img.data.subrange(
        offset as int,
        offset + len,
    ));
}

proof fn lemma_section_data(img: Image, tail: Seq<u8>, s: SectionModel, what: &'static str)
    requires
        section_data(img, s, what) is Ok,
    ensures
        section_data(extended(img, tail), s, what) == section_data(img, s, what),
{
    if section_data(img, s, what) == img.bytes(s.offset, s.size, what) && img.bytes(
        s.offset,
        s.size,
        what,
    ) is Ok {
        lemma_bytes(img, tail, s.offset, s.size, what);
    }
}

proof fn lemma_header(img: Image, tail: Seq<u8>)
    requires
        header_size(img) <= img.data.len(),
    ensures
        header(extended(img, tail)) == header(img),
{
    let w = img.word_size() as int;
    lemma_field(img, tail, 16, 2);
    lemma_field(img, tail, 18, 2);
    lemma_field(img, tail, 24 + w, w);
    lemma_field(img, tail, 24 + 2 * w, w);
    lemma_field(img, tail, 30 + 3 * w, 2);
    lemma_field(img, tail, 32 + 3 * w, 2);
    lemma_field(img, tail, 34 + 3 * w, 2);
    lemma_field(img, tail, 36 + 3 * w, 2);
    lemma_field(img, tail, 38 + 3 * w, 2);
}

proof fn lemma_section_header(img: Image, tail: Seq<u8>, off: u64)
    requires
        off + section_header_size(img) <= img.data.len(),
        img.data.len() + tail.len() <= u64::MAX,
    ensures
        section_header(extended(img, tail), off) == section_header(img, off),
        section_header(img, off) is Ok,
{
    let w = img.word_size() as int;
    let at = off as int;
    lemma_field(img, tail, at, 4);
    lemma_field(img, tail, at + 4, 4);
    lemma_field(img, tail, at + 8, w);
    lemma_field(img, tail, at + 8 + w, w);
    lemma_field(img, tail, at + 8 + 2 * w, w);
    lemma_field(img, tail, at + 8 + 3 * w, w);
    lemma_field(img, tail, at + 8 + 4 * w, 4);
    lemma_field(img, tail, at + 12 + 4 * w, 4);
    lemma_field(img, tail, at + 16 + 5 * w, w);
}

/// A section header that could be read lies within the file.
proof fn lemma_section_header_fits(img: Image, off: u64)
    requires
        section_header(img, off) is Ok,
    ensures
        off + section_header_size(img) <= img.data.len(),
{
}

proof fn lemma_raw_sections(img: Image, tail: Seq<u8>)
    requires
        header_size(img) <= img.data.len(),
        img.data.len() + tail.len() <= u64::MAX,
        raw_sections(img) is Ok,
    ensures
        raw_sections(extended(img, tail)) == raw_sections(img),
        section_zero(extended(img, tail)) == section_zero(img),
{
    let ext = extended(img, tail);
    let h = header(img);
    lemma_header(img, tail);
    if h.shoff != 0 {
        lemma_section_header_fits(img, h.shoff);
        lemma_section_header(img, tail, h.shoff);
        let zero = section_header(img, h.shoff)->Ok_0.1;
        let count = if h.shnum == 0 {
            zero.size
        } else {
            h.shnum as u64
        };
        let len = (count * h.shentsize) as u64;
        lemma_bytes(img, tail, h.shoff, len, "section header table");
        let a = raw_sections(img)->Ok_0;
        let b = raw_sections(ext)->Ok_0;
        assert forall|i: int| 0 <= i < count implies a[i] == b[i] by {
            let e = h.shentsize as int;
            assert(i * e + e <= count * e) by (nonlinear_arith)
                requires
                    0 <= i < count,
                    0 <= e,
            ;
            assert(0 <= i * e) by (nonlinear_arith)
                requires
                    0 <= i,
                    0 <= e,
            ;
            lemma_section_header(img, tail, (h.shoff + i * h.shentsize) as u64);
        }
        assert(a =~= b);
    }
}

proof fn lemma_program_header(img: Image, tail: Seq<u8>, off: int)
    requires
        0 <= off,
        off + program_header_size(img) <= img.data.len(),
    ensures
        program_header(extended(img, tail), off) == program_header(img, off),
{
    lemma_field(img, tail, off, 4);
    lemma_field(img, tail, off + 4, 4);
    lemma_field(img, tail, off + 8, 4);
    lemma_field(img, tail, off + 16, 4);
    lemma_field(img, tail, off + 20, 4);
    lemma_field(img, tail, off + 24, 4);
    if program_header_size(img) == 56 {
        lemma_field(img, tail, off + 8, 8);
        lemma_field(img, tail, off + 16, 8);
        lemma_field(img, tail, off + 32, 8);
        lemma_field(img, tail, off + 40, 8);
    }
}

proof fn lemma_segments(img: Image, tail: Seq<u8>)
    requires
        header_size(img) <= img.data.len(),
        img.data.len() + tail.len() <= u64::MAX,
        raw_sections(img) is Ok,
        segments(img) is Ok,
    ensures
        segments(extended(img, tail)) == segments(img),
{
    let ext = extended(img, tail);
    let h = header(img);
    lemma_header(img, tail);
    lemma_raw_sections(img, tail);
    let count = segment_count(img);
    if count != 0 && h.phoff != 0 {
        let len = (count * h.phentsize) as u64;
        lemma_bytes(img, tail, h.phoff, len, "program header table");
        let a = segments(img)->Ok_0;
        let b = segments(ext)->Ok_0;
        assert forall|i: int| 0 <= i < count implies a[i] == b[i] by {
            let e = h.phentsize as int;
            assert(i * e + e <= count * e && 0 <= i * e) by (nonlinear_arith)
                requires
                    0 <= i < count,
                    0 <= e,
            ;
            lemma_program_header(img, tail, h.phoff + i * h.phentsize);
        }
        assert(a =~= b);
    }
}

proof fn lemma_named_sections(img: Image, tail: Seq<u8>)
    requires
        header_size(img) <= img.data.len(),
        img.data.len() + tail.len() <= u64::MAX,
        raw_sections(img) is Ok,
        named_sections(img, raw_sections(img)->Ok_0) is Ok,
    ensures
        named_sections(extended(img, tail), raw_sections(img)->Ok_0) == named_sections(
            img,
            raw_sections(img)->Ok_0,
        ),
{
    lemma_header(img, tail);
    lemma_raw_sections(img, tail);
    let raw = raw_sections(img)->Ok_0;
    let bare = raw.map_values(|p: (u32, SectionModel)| p.1);
    let index = name_table_index(img);
    if raw.len() != 0 && index != 0 {
        let s = section_at(bare, index, "e_shstrndx")->Ok_0;
        lemma_section_data(img, tail, s, "section name table");
    }
}

proof fn lemma_interpreter(img: Image, tail: Seq<u8>, segs: Seq<Segment>)
    requires
        interpreter(img, segs) is Ok,
    ensures
        interpreter(extended(img, tail), segs) == interpreter(img, segs),
{
    if let Some(seg) = find_segment(segs, PT_INTERP, 0) {
        lemma_bytes(img, tail, seg.offset, seg.filesz, "PT_INTERP");
    }
}

proof fn lemma_dynamic(img: Image, tail: Seq<u8>, sections: Seq<SectionModel>)
    requires
        dynamic(img, sections) is Ok,
    ensures
        dynamic(extended(img, tail), sections) == dynamic(img, sections),
{
    if let Some(s) = find_section(sections, SHT_DYNAMIC, 0) {
        lemma_section_data(img, tail, s, ".dynamic");
        let t = section_at(sections, s.link as u64, ".dynamic sh_link")->Ok_0;
        lemma_section_data(img, tail, t, ".dynamic string table");
        let data = section_data(img, s, ".dynamic")->Ok_0;
        assert(extended(img, tail).over(data) == img.over(data));
    }
}

proof fn lemma_version_section(
    img: Image,
    tail: Seq<u8>,
    sections: Seq<SectionModel>,
    s: SectionModel,
    table: Versions,
)
    requires
        version_section(img, sections, s, table) is Ok,
    ensures
        version_section(extended(img, tail), sections, s, table) == version_section(
            img,
            sections,
            s,
            table,
        ),
{
    lemma_section_data(img, tail, s, "version section");
    let t = section_at(sections, s.link as u64, "version sh_link")->Ok_0;
    lemma_section_data(img, tail, t, "version string table");
    let body = section_data(img, s, "version section")->Ok_0;
    assert(extended(img, tail).over(body) == img.over(body));
}

proof fn lemma_versions(
    img: Image,
    tail: Seq<u8>,
    sections: Seq<SectionModel>,
    i: int,
    table: Versions,
)
    requires
        0 <= i,
        versions_from(img, sections, i, table) is Ok,
    ensures
        versions_from(extended(img, tail), sections, i, table) == versions_from(
            img,
            sections,
            i,
            table,
        ),
    decreases sections.len() - i,
{
    if i < sections.len() {
        let s = sections[i];
        if s.kind == SHT_GNU_VERNEED || s.kind == SHT_GNU_VERDEF {
            lemma_version_section(img, tail, sections, s, table);
            lemma_versions(
                img,
                tail,
                sections,
                i + 1,
                version_section(img, sections, s, table)->Ok_0,
            );
        } else {
            lemma_versions(img, tail, sections, i + 1, table);
        }
    }
}

proof fn lemma_dynsym(img: Image, tail: Seq<u8>, sections: Seq<SectionModel>)
    requires
        dynsym(img, sections) is Ok,
    ensures
        dynsym(extended(img, tail), sections) == dynsym(img, sections),
{
    if let Some(s) = find_section(sections, SHT_DYNSYM, 0) {
        lemma_section_data(img, tail, s, ".dynsym");
        let t = section_at(sections, s.link as u64, ".dynsym sh_link")->Ok_0;
        lemma_section_data(img, tail, t, ".dynsym string table");
        if let Some(v) = find_section(
            sections,
            SHT_GNU_VERSYM,
            0,
        ) {
            lemma_section_data(img, tail, v, ".gnu.version");
        }
        assert(versym_data(extended(img, tail), sections) == versym_data(img, sections));
        lemma_versions(img, tail, sections, 0, Map::empty());
        let data = section_data(img, s, ".dynsym")->Ok_0;
        assert(extended(img, tail).over(data) == img.over(data));
    }
}

proof fn lemma_strings(
    img: Image,
    tail: Seq<u8>,
    sections: Seq<SectionModel>,
    i: int,
    found: Set<Seq<char>>,
)
    requires
        0 <= i,
        strings_from(img, sections, i, found) is Ok,
    ensures
        strings_from(extended(img, tail), sections, i, found) == strings_from(
            img,
            sections,
            i,
            found,
        ),
    decreases sections.len() - i,
{
    if i < sections.len() {
        if is_read_only_data(sections[i]) {
            lemma_section_data(img, tail, sections[i], "read-only data section");
            let data = section_data(img, sections[i], "read-only data section")->Ok_0;
            lemma_strings(
                img,
                tail,
                sections,
                i + 1,
                found.union(strings_in(data)),
            );
        } else {
            lemma_strings(img, tail, sections, i + 1, found);
        }
    }
}

/// Bytes appended to a file that parses change nothing: what the longer file says is
/// what the file says.
pub proof fn law_appended_bytes_change_nothing(data: Seq<u8>, tail: Seq<u8>)
    requires
        elf_model(data) is Ok,
        data.len() + tail.len() <= u64::MAX,
    ensures
        elf_model(data + tail) == elf_model(data),
{
    reveal(image_model);
    let img = image_of(data);
    let ext = extended(img, tail);
    assert(elf_model(data) == image_model(img));
    assert(elf_model(data + tail) == image_model(ext));
    lemma_header(img, tail);
    lemma_bytes(img, tail, 0, header_size(img), "ELF header");
    lemma_raw_sections(img, tail);
    lemma_segments(img, tail);
    lemma_named_sections(img, tail);
    let m = image_model(img)->Ok_0;
    lemma_interpreter(img, tail, m.segments);
    lemma_dynamic(img, tail, m.sections);
    lemma_dynsym(img, tail, m.sections);
    lemma_strings(img, tail, m.sections, 0, Set::empty());
    assert(rodata_strings(ext, m.sections) == rodata_strings(img, m.sections));
}

} // verus!
