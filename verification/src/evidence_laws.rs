//! What counts as evidence, said of the symbols and strings of a file and of the
//! words of a database.

use crate::analysis::{
    analysis, base_name, is_evidence, is_library_name, is_loader, names_loader, names_symbol,
    names_versioned, owner_is, version_name, Confidence, EvidenceModel, DYNAMIC_LOADERS,
};
use crate::analysis_laws::law_evidence_is_sorted_and_complete;
use crate::capdb::{cap_of_string, cap_of_symbol, lemma_first_cap, lemma_no_cap, CapModel};
use crate::elf_model::{ElfModel, SymbolModel};
use crate::text::{at_char, has_infix, has_prefix, has_suffix, is_space, occurs_at, pieces};
use vstd::prelude::*;

verus! {

/// A file has an undefined symbol of this name, of any binding and type, with a
/// version of this name or without one.
pub open spec fn needs_symbol(elf: ElfModel, name: Seq<char>, version: Option<Seq<char>>) -> bool {
    exists|k: int|
        0 <= k < elf.symbols.len() && (#[trigger] elf.symbols[k]).section_index == 0
            && elf.symbols[k].name == name && name.len() > 0 && match elf.symbols[k].version {
            Some(v) => version == Some(v.name),
            None => version is None,
        }
}

/// A file has an undefined symbol of this name.
pub open spec fn needs_name(elf: ElfModel, name: Seq<char>) -> bool {
    exists|k: int|
        0 <= k < elf.symbols.len() && (#[trigger] elf.symbols[k]).section_index == 0
            && elf.symbols[k].name == name && name.len() > 0
}

/// The `i`th capability is the first that lists a symbol.
pub open spec fn owns_symbol(db: Seq<CapModel>, i: int, name: Seq<char>) -> bool {
    0 <= i < db.len() && db[i].symbols.contains(name) && forall|j: int|
        0 <= j < i ==> !(#[trigger] db[j]).symbols.contains(name)
}

/// The `i`th capability is the first that lists a string.
pub open spec fn owns_string(db: Seq<CapModel>, i: int, s: Seq<char>) -> bool {
    0 <= i < db.len() && db[i].strings.contains(s) && forall|j: int|
        0 <= j < i ==> !(#[trigger] db[j]).strings.contains(s)
}

/// A file needs one of the functions that find symbols by name at run time.
pub open spec fn loads_by_name(elf: ElfModel) -> bool {
    needs_name(elf, "dlopen"@) || needs_name(elf, "dlmopen"@) || needs_name(elf, "dlsym"@)
        || needs_name(elf, "dlvsym"@)
}

proof fn lemma_owner(db: Seq<CapModel>, w: Seq<char>, id: Seq<char>)
    ensures
        owner_is(db, cap_of_symbol(db, w), id) <==> exists|i: int| #[trigger]
            owns_symbol(db, i, w) && db[i].id == id,
        owner_is(db, cap_of_string(db, w), id) <==> exists|i: int| #[trigger]
            owns_string(db, i, w) && db[i].id == id,
{
    let p = |c: CapModel| c.symbols.contains(w);
    if exists|i: int| 0 <= i < db.len() && #[trigger] p(db[i]) {
        let i = lemma_least(db, p);
        lemma_first_cap(db, p, 0, i);
        assert(owns_symbol(db, i, w)) by {
            assert forall|j: int| 0 <= j < i implies !(#[trigger] db[j]).symbols.contains(w) by {
                assert(!p(db[j]));
            }
        }
        assert forall|k: int| #[trigger] owns_symbol(db, k, w) implies k == i by {
            if k < i {
                assert(!p(db[k]));
            }
        }
    } else {
        assert forall|j: int| 0 <= j < db.len() implies !p(#[trigger] db[j]) by {}
        lemma_no_cap(db, p, 0);
        assert forall|k: int| #[trigger] owns_symbol(db, k, w) implies false by {
            assert(p(db[k]));
        }
    }
    let q = |c: CapModel| c.strings.contains(w);
    if exists|i: int| 0 <= i < db.len() && #[trigger] q(db[i]) {
        let i = lemma_least(db, q);
        lemma_first_cap(db, q, 0, i);
        assert(owns_string(db, i, w)) by {
            assert forall|j: int| 0 <= j < i implies !(#[trigger] db[j]).strings.contains(w) by {
                assert(!q(db[j]));
            }
        }
        assert forall|k: int| #[trigger] owns_string(db, k, w) implies k == i by {
            if k < i {
                assert(!q(db[k]));
            }
        }
    } else {
        assert forall|j: int| 0 <= j < db.len() implies !q(#[trigger] db[j]) by {}
        lemma_no_cap(db, q, 0);
        assert forall|k: int| #[trigger] owns_string(db, k, w) implies false by {
            assert(q(db[k]));
        }
    }
}

/// The first capability that meets a condition which some meet.
pub proof fn lemma_least(db: Seq<CapModel>, p: spec_fn(CapModel) -> bool) -> (i: int)
    requires
        exists|i: int| 0 <= i < db.len() && #[trigger] p(db[i]),
    ensures
        0 <= i < db.len(),
        p(db[i]),
        forall|j: int| 0 <= j < i ==> !p(#[trigger] db[j]),
    decreases db.len(),
{
    if p(db[0]) {
        0
    } else {
        let rest = db.drop_first();
        let k = choose|k: int| 0 <= k < db.len() && #[trigger] p(db[k]);
        assert(p(rest[k - 1]));
        let i = lemma_least(rest, p);
        assert forall|j: int| 0 <= j < i + 1 implies !p(#[trigger] db[j]) by {
            if j > 0 {
                assert(!p(rest[j - 1]));
            }
        }
        i + 1
    }
}

/// Every import is an undefined symbol with a name, and every such symbol is one.
proof fn lemma_imports(elf: ElfModel, s: SymbolModel)
    ensures
        elf.imports().contains(s) <==> elf.symbols.contains(s) && s.section_index == 0
            && s.name.len() > 0,
{
    let keep = |s: SymbolModel| s.is_import();
    if elf.imports().contains(s) {
        elf.symbols.lemma_filter_contains_rev(keep, s);
        broadcast use vstd::seq_lib::group_filter_ensures;

        let i = choose|i: int| 0 <= i < elf.imports().len() && elf.imports()[i] == s;
        assert(keep(elf.symbols.filter(keep)[i]));
    }
    if elf.symbols.contains(s) && s.section_index == 0 && s.name.len() > 0 {
        let k = choose|k: int| 0 <= k < elf.symbols.len() && elf.symbols[k] == s;
        assert(keep(elf.symbols[k]));
        elf.symbols.lemma_filter_contains(keep, k);
    }
}

proof fn lemma_needs(elf: ElfModel, name: Seq<char>, version: Option<Seq<char>>)
    ensures
        names_versioned(elf.imports(), name, version) == needs_symbol(elf, name, version),
        names_symbol(elf.imports(), name) == needs_name(elf, name),
{
    let imports = elf.imports();
    if names_versioned(imports, name, version) {
        let k = choose|k: int|
            0 <= k < imports.len() && (#[trigger] imports[k]).name == name && version_name(
                imports[k],
            ) == version;
        lemma_imports(elf, imports[k]);
        assert(imports.contains(imports[k]));
        let m = choose|m: int| 0 <= m < elf.symbols.len() && elf.symbols[m] == imports[k];
        assert(elf.symbols[m].section_index == 0);
    }
    if needs_symbol(elf, name, version) {
        let k = choose|k: int|
            0 <= k < elf.symbols.len() && (#[trigger] elf.symbols[k]).section_index == 0
                && elf.symbols[k].name == name && name.len() > 0 && match elf.symbols[k].version {
                Some(v) => version == Some(v.name),
                None => version is None,
            };
        lemma_imports(elf, elf.symbols[k]);
        assert(elf.symbols.contains(elf.symbols[k]));
        let m = choose|m: int| 0 <= m < imports.len() && imports[m] == elf.symbols[k];
        assert(imports[m].name == name && version_name(imports[m]) == version);
    }
    if names_symbol(imports, name) {
        let k = choose|k: int| 0 <= k < imports.len() && (#[trigger] imports[k]).name == name;
        lemma_imports(elf, imports[k]);
        assert(imports.contains(imports[k]));
        let m = choose|m: int| 0 <= m < elf.symbols.len() && elf.symbols[m] == imports[k];
        assert(elf.symbols[m].section_index == 0);
    }
    if needs_name(elf, name) {
        let k = choose|k: int|
            0 <= k < elf.symbols.len() && (#[trigger] elf.symbols[k]).section_index == 0
                && elf.symbols[k].name == name && name.len() > 0;
        lemma_imports(elf, elf.symbols[k]);
        assert(elf.symbols.contains(elf.symbols[k]));
        let m = choose|m: int| 0 <= m < imports.len() && imports[m] == elf.symbols[k];
        assert(imports[m].name == name);
    }
}

proof fn lemma_loads_by_name(elf: ElfModel)
    ensures
        names_loader(elf.imports()) == loads_by_name(elf),
{
    let imports = elf.imports();
    lemma_needs(elf, "dlopen"@, None);
    lemma_needs(elf, "dlmopen"@, None);
    lemma_needs(elf, "dlsym"@, None);
    lemma_needs(elf, "dlvsym"@, None);
    assert forall|name: Seq<char>| #[trigger]
        is_loader(name) <==> name == "dlopen"@ || name == "dlmopen"@ || name == "dlsym"@ || name
            == "dlvsym"@ by {
        assert(DYNAMIC_LOADERS[0]@ == "dlopen"@ && DYNAMIC_LOADERS[1]@ == "dlmopen"@
            && DYNAMIC_LOADERS[2]@ == "dlsym"@ && DYNAMIC_LOADERS[3]@ == "dlvsym"@);
        if is_loader(name) {
            let i = choose|i: int|
                0 <= i < DYNAMIC_LOADERS.len() && (#[trigger] DYNAMIC_LOADERS[i])@ == name;
            assert(i == 0 || i == 1 || i == 2 || i == 3);
        }
    }
    if names_loader(imports) {
        let k = choose|k: int| 0 <= k < imports.len() && is_loader((#[trigger] imports[k]).name);
        assert(names_symbol(imports, imports[k].name));
    }
    if loads_by_name(elf) {
        let name = if needs_name(elf, "dlopen"@) {
            "dlopen"@
        } else if needs_name(elf, "dlmopen"@) {
            "dlmopen"@
        } else if needs_name(elf, "dlsym"@) {
            "dlsym"@
        } else {
            "dlvsym"@
        };
        assert(names_symbol(imports, name));
        let k = choose|k: int| 0 <= k < imports.len() && (#[trigger] imports[k]).name == name;
        assert(is_loader(imports[k].name));
    }
}

/// Direct evidence is exact: an undefined symbol of any binding and type whose name
/// the database lists is evidence for the capability that lists it, with the name of
/// its version, and nothing else is.
pub proof fn law_direct_evidence_is_exact(elf: ElfModel, db: Seq<CapModel>, e: EvidenceModel)
    requires
        e.confidence == Confidence::Direct,
    ensures
        analysis(elf, db).evidence.contains(e) <==> needs_symbol(elf, e.symbol, e.version) && exists|
            i: int,
        | #[trigger]
            owns_symbol(db, i, e.symbol) && db[i].id == e.capability,
{
    law_evidence_is_sorted_and_complete(elf, db);
    lemma_owner(db, e.symbol, e.capability);
    lemma_needs(elf, e.symbol, e.version);
}

/// Every undefined symbol that the database lists is direct evidence.
pub proof fn law_every_listed_import_is_evidence(elf: ElfModel, db: Seq<CapModel>, k: int, i: int)
    requires
        0 <= k < elf.symbols.len(),
        elf.symbols[k].section_index == 0,
        elf.symbols[k].name.len() > 0,
        owns_symbol(db, i, elf.symbols[k].name),
    ensures
        analysis(elf, db).evidence.contains(
            EvidenceModel {
                capability: db[i].id,
                symbol: elf.symbols[k].name,
                version: match elf.symbols[k].version {
                    Some(v) => Some(v.name),
                    None => None,
                },
                confidence: Confidence::Direct,
            },
        ),
{
    let e = EvidenceModel {
        capability: db[i].id,
        symbol: elf.symbols[k].name,
        version: match elf.symbols[k].version {
            Some(v) => Some(v.name),
            None => None,
        },
        confidence: Confidence::Direct,
    };
    assert(needs_symbol(elf, e.symbol, e.version));
    law_direct_evidence_is_exact(elf, db, e);
}

/// Indirect evidence is exact: a read-only string that the database lists as a
/// string; or one that is the name of a listed symbol, in a file that needs `dlopen`,
/// `dlmopen`, `dlsym` or `dlvsym` and does not need that symbol itself. It has no
/// version.
pub proof fn law_indirect_evidence_is_exact(elf: ElfModel, db: Seq<CapModel>, e: EvidenceModel)
    requires
        e.confidence == Confidence::Indirect,
    ensures
        analysis(elf, db).evidence.contains(e) <==> e.version is None
            && elf.rodata_strings.contains(e.symbol) && ((exists|i: int| #[trigger]
            owns_string(db, i, e.symbol) && db[i].id == e.capability) || (loads_by_name(elf)
            && !needs_name(elf, e.symbol) && exists|i: int| #[trigger]
            owns_symbol(db, i, e.symbol) && db[i].id == e.capability)),
{
    law_evidence_is_sorted_and_complete(elf, db);
    lemma_owner(db, e.symbol, e.capability);
    lemma_needs(elf, e.symbol, e.version);
    lemma_loads_by_name(elf);
    assert(analysis(elf, db).evidence.contains(e) == is_evidence(
        elf.imports(),
        elf.rodata_strings,
        db,
        e,
    ));
}

/// Unicode white space.
pub open spec fn is_blank(c: char) -> bool {
    let n = c as int;
    9 <= n <= 13 || n == 32 || n == 0x85 || n == 0xa0 || n == 0x1680 || 0x2000 <= n <= 0x200a || n
        == 0x2028 || n == 0x2029 || n == 0x202f || n == 0x205f || n == 0x3000
}

/// A text has a word at a position.
pub open spec fn reads(s: Seq<char>, at: int, word: Seq<char>) -> bool {
    0 <= at && at + word.len() <= s.len() && s.subrange(at, at + word.len()) == word
}

/// The part of a text from `p` on is a file name, without a slash, that starts with
/// `lib`, ends with `.so` or has `.so.` in it, and has no blanks.
pub open spec fn library_from(s: Seq<char>, p: int) -> bool {
    &&& 0 <= p <= s.len()
    &&& p == 0 || s[p - 1] == '/'
    &&& forall|j: int| p <= j < s.len() ==> (#[trigger] s[j]) != '/' && !is_blank(s[j])
    &&& reads(s, p, "lib"@)
    &&& (p + 3 <= s.len() && reads(s, s.len() - 3, ".so"@)) || exists|i: int|
        p <= i && #[trigger] reads(s, i, ".so."@)
}

/// A path whose last part is the name of a shared library.
pub open spec fn is_library_path(s: Seq<char>) -> bool {
    exists|p: int| #[trigger] library_from(s, p)
}

proof fn lemma_base(s: Seq<char>) -> (p: int)
    ensures
        0 <= p <= s.len(),
        p == 0 || s[p - 1] == '/',
        forall|j: int| p <= j < s.len() ==> (#[trigger] s[j]) != '/',
        base_name(s) == s.skip(p),
    decreases s.len(),
{
    let cut = at_char('/');
    crate::text::lemma_pieces_nonempty(s, cut);
    if s.len() == 0 {
        assert(s.skip(0) =~= Seq::<char>::empty());
        0
    } else if s.last() == '/' {
        assert(s.skip(s.len() as int) =~= Seq::<char>::empty());
        s.len() as int
    } else {
        let t = s.drop_last();
        let p = lemma_base(t);
        assert(t.skip(p).push(s.last()) =~= s.skip(p));
        assert(pieces(s, cut).last() == pieces(t, cut).last().push(s.last()));
        assert forall|j: int| p <= j < s.len() implies (#[trigger] s[j]) != '/' by {
            if j < t.len() {
                assert(t[j] == s[j]);
            }
        }
        p
    }
}

proof fn lemma_library(s: Seq<char>)
    ensures
        is_library_name(s) == is_library_path(s),
{
    reveal_strlit("lib");
    reveal_strlit(".so");
    reveal_strlit(".so.");
    let p = lemma_base(s);
    let base = s.skip(p);
    if is_library_name(s) {
        assert(s.subrange(p, p + 3) =~= base.subrange(0, 3));
        assert forall|j: int| p <= j < s.len() implies (#[trigger] s[j]) != '/' && !is_blank(s[j]) by {
            assert(base[j - p] == s[j]);
        }
        if has_suffix(base, ".so"@) {
            let k = base.len() - 3;
            assert(s.subrange(s.len() - 3, s.len() as int) =~= base.subrange(
                k,
                base.len() as int,
            ));
        } else {
            let i = choose|i: int| occurs_at(base, ".so."@, i);
            assert(s.subrange(p + i, p + i + 4) =~= base.subrange(i, i + 4));
            assert(reads(s, p + i, ".so."@));
        }
        assert(library_from(s, p));
    }
    if is_library_path(s) {
        let q = choose|q: int| #[trigger] library_from(s, q);
        if q < p {
            assert(s[p - 1] != '/');
        } else if p < q {
            assert(s[q - 1] != '/');
        }
        assert(base.subrange(0, 3) =~= s.subrange(p, p + 3));
        assert forall|i: int| 0 <= i < base.len() implies !is_space(#[trigger] base[i]) by {
            assert(!is_blank(s[p + i]));
        }
        if p + 3 <= s.len() && reads(s, s.len() - 3, ".so"@) {
            assert(base.subrange(base.len() - 3, base.len() as int) =~= s.subrange(
                s.len() - 3,
                s.len() as int,
            ));
            assert(has_suffix(base, ".so"@));
        } else {
            let i = choose|i: int| p <= i && #[trigger] reads(s, i, ".so."@);
            assert(base.subrange(i - p, i - p + 4) =~= s.subrange(i, i + 4));
            assert(occurs_at(base, ".so."@, i - p));
            assert(has_infix(base, ".so."@));
        }
        assert(has_prefix(base, "lib"@));
    }
}

/// The flag of an analysis says whether the file needs a function that finds symbols
/// by name. Where it does, the candidates are the read-only strings that name a
/// shared library, in order; elsewhere there are none.
pub proof fn law_candidates_are_library_names(elf: ElfModel, db: Seq<CapModel>)
    ensures
        analysis(elf, db).imports_dynamic_loader == loads_by_name(elf),
        !loads_by_name(elf) ==> analysis(elf, db).dlopen_candidates.len() == 0,
        loads_by_name(elf) ==> analysis(elf, db).dlopen_candidates == elf.rodata_strings.filter(
            |s: Seq<char>| is_library_path(s),
        ),
{
    lemma_loads_by_name(elf);
    let a = |s: Seq<char>| is_library_name(s);
    let b = |s: Seq<char>| is_library_path(s);
    assert forall|s: Seq<char>| #[trigger] a(s) == b(s) by {
        lemma_library(s);
    }
    assert(a =~= b);
}

} // verus!
