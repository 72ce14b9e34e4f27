//! Laws of the capability matching.

use crate::analysis::{
    analysis, evidence_set, is_evidence, names_loader, names_symbol, version_name, Confidence,
    Evidence, EvidenceModel,
};
use crate::capdb::{cap_of_string, cap_of_symbol, CapModel};
use crate::elf_model::{ElfModel, SymbolModel};
use crate::order::{ascending, lemma_in_order_ascending};
use vstd::prelude::*;

verus! {

/// Finitely many imports and strings give finitely much evidence.
pub proof fn lemma_evidence_finite(
    imports: Seq<SymbolModel>,
    strings: Seq<Seq<char>>,
    db: Seq<CapModel>,
)
    ensures
        evidence_set(imports, strings, db).finite(),
{
    let direct = imports.map_values(
        |s: SymbolModel|
            EvidenceModel {
                capability: db[cap_of_symbol(db, s.name)->Some_0].id,
                symbol: s.name,
                version: version_name(s),
                confidence: Confidence::Direct,
            },
    );
    let by_string = strings.map_values(
        |s: Seq<char>|
            EvidenceModel {
                capability: db[cap_of_string(db, s)->Some_0].id,
                symbol: s,
                version: None,
                confidence: Confidence::Indirect,
            },
    );
    let by_name = strings.map_values(
        |s: Seq<char>|
            EvidenceModel {
                capability: db[cap_of_symbol(db, s)->Some_0].id,
                symbol: s,
                version: None,
                confidence: Confidence::Indirect,
            },
    );
    let all = direct.to_set().union(by_string.to_set()).union(by_name.to_set());
    assert forall|e: EvidenceModel| evidence_set(imports, strings, db).contains(
        e,
    ) implies all.contains(e) by {
        match e.confidence {
            Confidence::Direct => {
                let k = choose|k: int|
                    0 <= k < imports.len() && (#[trigger] imports[k]).name == e.symbol
                        && version_name(imports[k]) == e.version;
                assert(direct[k] == e);
                assert(direct.contains(e));
            },
            Confidence::Indirect => {
                let k = choose|k: int| 0 <= k < strings.len() && strings[k] == e.symbol;
                assert(by_string[k] == e || by_name[k] == e);
                assert(by_string.contains(e) || by_name.contains(e));
            },
        }
    }
    vstd::set_lib::lemma_set_subset_finite(all, evidence_set(imports, strings, db));
}

/// An analysis lists its evidence in order, each piece once, and lists exactly
/// what counts as evidence.
pub proof fn law_evidence_is_sorted_and_complete(elf: ElfModel, db: Seq<CapModel>)
    ensures
        ascending::<Evidence>(analysis(elf, db).evidence),
        forall|e: EvidenceModel|
            analysis(elf, db).evidence.contains(e) <==> is_evidence(
                elf.imports(),
                elf.rodata_strings,
                db,
                e,
            ),
{
    let all = evidence_set(elf.imports(), elf.rodata_strings, db);
    lemma_evidence_finite(elf.imports(), elf.rodata_strings, db);
    lemma_in_order_ascending::<Evidence>(all);
    assert forall|e: EvidenceModel| analysis(elf, db).evidence.contains(e) <==> is_evidence(
        elf.imports(),
        elf.rodata_strings,
        db,
        e,
    ) by {
        assert(analysis(elf, db).evidence.to_set().contains(e) == all.contains(e));
    }
}

/// A symbol that an object defines is never flagged: with it or without it, the
/// analysis is the same.
pub proof fn law_defined_symbols_do_not_count(elf: ElfModel, s: SymbolModel, db: Seq<CapModel>)
    requires
        !s.is_undefined(),
    ensures
        analysis(ElfModel { symbols: elf.symbols.push(s), ..elf }, db) == analysis(elf, db),
{
    elf.symbols.lemma_filter_push(s, |s: SymbolModel| s.is_import());
}

/// Direct evidence is always an import of the object itself.
pub proof fn law_direct_evidence_is_imported(elf: ElfModel, db: Seq<CapModel>, e: EvidenceModel)
    requires
        analysis(elf, db).evidence.contains(e),
        e.confidence == Confidence::Direct,
    ensures
        exists|k: int|
            0 <= k < elf.symbols.len() && (#[trigger] elf.symbols[k]).is_undefined()
                && elf.symbols[k].name == e.symbol,
{
    law_evidence_is_sorted_and_complete(elf, db);
    let imports = elf.imports();
    let keep = |s: SymbolModel| s.is_import();
    let k = choose|k: int|
        0 <= k < imports.len() && (#[trigger] imports[k]).name == e.symbol && version_name(
            imports[k],
        ) == e.version;
    elf.symbols.lemma_filter_contains_rev(keep, imports[k]);
    assert(elf.symbols.contains(imports[k]));
    let m = choose|m: int| 0 <= m < elf.symbols.len() && elf.symbols[m] == imports[k];
    assert(imports[k].is_import()) by {
        broadcast use vstd::seq_lib::group_filter_ensures;

        assert(keep(imports[k]));
    }
    assert(elf.symbols[m].is_undefined());
}

/// The name of a database symbol is evidence only next to an import that can
/// load symbols by name; neither of the two is evidence alone.
pub proof fn law_symbol_names_need_a_loader(elf: ElfModel, db: Seq<CapModel>, name: Seq<char>)
    requires
        cap_of_string(db, name) is None,
    ensures
        (exists|e: EvidenceModel| #[trigger]
            analysis(elf, db).evidence.contains(e) && e.symbol == name && e.confidence
                == Confidence::Indirect) <==> names_loader(elf.imports())
            && elf.rodata_strings.contains(name) && cap_of_symbol(db, name) is Some
            && !names_symbol(elf.imports(), name),
{
    law_evidence_is_sorted_and_complete(elf, db);
    if names_loader(elf.imports()) && elf.rodata_strings.contains(name) && cap_of_symbol(
        db,
        name,
    ) is Some && !names_symbol(elf.imports(), name) {
        let e = EvidenceModel {
            capability: db[cap_of_symbol(db, name)->Some_0].id,
            symbol: name,
            version: None,
            confidence: Confidence::Indirect,
        };
        assert(is_evidence(elf.imports(), elf.rodata_strings, db, e));
        assert(analysis(elf, db).evidence.contains(e));
    }
}

/// A string of the database is evidence wherever it stands, with or without an
/// import that can load symbols.
pub proof fn law_database_strings_count_alone(elf: ElfModel, db: Seq<CapModel>, s: Seq<char>)
    requires
        cap_of_string(db, s) is Some,
        elf.rodata_strings.contains(s),
    ensures
        analysis(elf, db).evidence.contains(
            EvidenceModel {
                capability: db[cap_of_string(db, s)->Some_0].id,
                symbol: s,
                version: None,
                confidence: Confidence::Indirect,
            },
        ),
{
    law_evidence_is_sorted_and_complete(elf, db);
    assert(is_evidence(
        elf.imports(),
        elf.rodata_strings,
        db,
        EvidenceModel {
            capability: db[cap_of_string(db, s)->Some_0].id,
            symbol: s,
            version: None,
            confidence: Confidence::Indirect,
        },
    ));
}

} // verus!
