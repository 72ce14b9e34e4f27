//! Laws of what values stand for: a field of a value is the field of the same name in
//! its model.

use crate::analysis::ObjectAnalysis;
use crate::capdb::Capability;
use crate::diff::{CapabilityChange, Diff, EvidenceChange};
use crate::elf::{ElfFile, Section, Symbol};
use crate::loader::{LoadedObject, Object};
use crate::options::Options;
use crate::scan::{FileError, Finding, ObjectReport, Report};
use vstd::prelude::*;

verus! {

/// A text that may be missing, and what it stands for.
pub open spec fn shows_text(text: Option<String>, model: Option<Seq<char>>) -> bool {
    match (text, model) {
        (Some(t), Some(m)) => t@ == m,
        (None, None) => true,
        _ => false,
    }
}

/// A list of texts, and what it stands for, one by one.
pub open spec fn shows_texts(list: Seq<String>, model: Seq<Seq<char>>) -> bool {
    &&& list.len() == model.len()
    &&& forall|i: int| 0 <= i < list.len() ==> (#[trigger] list[i])@ == model[i]
}

/// A list of values, and what it stands for, one by one.
pub open spec fn shows_all<T: View>(list: Seq<T>, model: Seq<T::V>) -> bool {
    &&& list.len() == model.len()
    &&& forall|i: int| 0 <= i < list.len() ==> (#[trigger] list[i])@ == model[i]
}

/// What a file, a section and a symbol stand for.
pub proof fn law_files_show_their_fields(f: ElfFile, s: Section, y: Symbol)
    ensures
        f@.class == f.class && f@.endian == f.endian && f@.file_type == f.file_type && f@.machine
            == f.machine && f@.segments == f.segments@,
        shows_text(f.interpreter, f@.interpreter),
        shows_all(f.sections@, f@.sections),
        shows_texts(f.needed@, f@.needed),
        shows_text(f.soname, f@.soname),
        shows_text(f.rpath, f@.rpath),
        shows_text(f.runpath, f@.runpath),
        shows_all(f.symbols@, f@.symbols),
        shows_texts(f.rodata_strings@, f@.rodata_strings),
        s@.name == s.name@ && s@.kind == s.kind && s@.flags == s.flags && s@.addr == s.addr
            && s@.offset == s.offset && s@.size == s.size && s@.link == s.link && s@.info == s.info
            && s@.entsize == s.entsize,
        y@.name == y.name@ && y@.binding == y.binding && y@.kind == y.kind && y@.section_index
            == y.section_index && y@.value == y.value && y@.size == y.size,
        y@.version is Some <==> y.version is Some,
        y.version matches Some(v) ==> y@.version->Some_0.name == v.name@
            && y@.version->Some_0.hidden == v.hidden && shows_text(
            v.file,
            y@.version->Some_0.file,
        ),
{
}

/// What a report, what it says about an object, a finding and an error stand for.
pub proof fn law_reports_show_their_fields(r: Report, o: ObjectReport, f: Finding, e: FileError)
    ensures
        r@.root == r.root@,
        shows_all(r.objects@, r@.objects),
        shows_all(r.findings@, r@.findings),
        shows_all(r.errors@, r@.errors),
        o@.path == o.path@ && o@.executable == o.executable && o@.format == o.format@
            && o@.machine == o.machine && o@.imports_dynamic_loader == o.imports_dynamic_loader,
        shows_text(o.soname, o@.soname),
        shows_text(o.rpath, o@.rpath),
        shows_text(o.runpath, o@.runpath),
        o@.needed.len() == o.needed@.len(),
        forall|i: int|
            0 <= i < o.needed@.len() ==> o@.needed[i].name == (#[trigger] o.needed@[i]).name@
                && shows_text(o.needed@[i].resolved, o@.needed[i].resolved),
        shows_texts(o.dlopen_candidates@, o@.dlopen_candidates),
        f@.capability == f.capability@ && f@.title == f.title@ && f@.object == f.object@
            && f@.symbol == f.symbol@ && f@.confidence == f.confidence,
        shows_text(f.version, f@.version),
        f@.reached_via.len() == f.reached_via@.len(),
        forall|i: int|
            0 <= i < f.reached_via@.len() ==> shows_texts(
                (#[trigger] f.reached_via@[i])@,
                f@.reached_via[i],
            ),
        e@.path == e.path@ && e@.message == e.message@,
{
}

/// What a comparison and its changes stand for.
pub proof fn law_comparisons_show_their_fields(d: Diff, c: CapabilityChange, e: EvidenceChange)
    ensures
        shows_all(d.added@, d@.added),
        shows_all(d.removed@, d@.removed),
        shows_all(d.changed@, d@.changed),
        c@.capability == c.capability@ && c@.title == c.title@ && c@.evidence.len()
            == c.evidence@.len(),
        forall|i: int|
            0 <= i < c.evidence@.len() ==> c@.evidence[i].object == (
            #[trigger] c.evidence@[i]).object@ && c@.evidence[i].symbol == c.evidence@[i].symbol@
                && c@.evidence[i].confidence == c.evidence@[i].confidence,
        e@.capability == e.capability@ && e@.title == e.title@,
        shows_all(e.added@, e@.added),
        shows_all(e.removed@, e@.removed),
{
}

/// What a capability, an analysis, an object, its place in a load list and the options
/// stand for.
pub proof fn law_values_show_their_fields(
    c: Capability,
    a: ObjectAnalysis,
    o: Object,
    l: LoadedObject,
    p: Options,
)
    ensures
        c@.id == c.id@ && c@.title == c.title@ && c@.rationale == c.rationale@,
        shows_texts(c.symbols@, c@.symbols),
        shows_texts(c.strings@, c@.strings),
        a@.imports_dynamic_loader == a.imports_dynamic_loader,
        shows_texts(a.dlopen_candidates@, a@.dlopen_candidates),
        a@.evidence.len() == a.evidence@.len(),
        forall|i: int|
            0 <= i < a.evidence@.len() ==> a@.evidence[i].capability == (
            #[trigger] a.evidence@[i]).capability@ && a@.evidence[i].symbol
                == a.evidence@[i].symbol@ && shows_text(
                a.evidence@[i].version,
                a@.evidence[i].version,
            ) && a@.evidence[i].confidence == a.evidence@[i].confidence,
        o@.path == o.path@ && o@.rel == o.rel@ && o@.elf == o.elf@,
        l@.object == l.object@ && l@.origin == l.origin@,
        shows_texts(l.names@, l@.names),
        l.loader matches Some(j) ==> l@.loader == Some(j as int),
        l.loader is None ==> l@.loader is None,
        p@.json == p.json,
        shows_texts(p.positional@, p@.positional),
        shows_text(p.root, p@.root),
        shows_text(p.db, p@.db),
{
}

} // verus!
