//! Per-object capability matching. Pure: takes a parsed ELF and a database,
//! touches no files.

use crate::capdb::{cap_of_string, cap_of_symbol, CapDb, CapModel};
use crate::elf::{ElfFile, Symbol};
use crate::elf_model::{text_of, ElfModel, SymbolModel};
use crate::order::{
    ascending, in_order, insert_unique, lemma_in_order, lemma_text_connected,
    lemma_text_irreflexive, lemma_text_transitive, relate_text, text_before, views, Ordered,
    Relation,
};
use crate::text::{
    at_char, chars_of, contains_text, ends_with, has_infix, has_prefix, has_suffix, is_space,
    lemma_pieces_nonempty, pieces, runs, same_text, split_char, starts_with, texts, whitespace,
};
use vstd::prelude::*;

verus! {

/// Imports that let an object resolve symbols by name at run time, which is
/// what makes a symbol-name string in `.rodata` meaningful.
pub const DYNAMIC_LOADERS: [&'static str; 4] = ["dlopen", "dlmopen", "dlsym", "dlvsym"];

#[derive(Debug, Clone, Copy, PartialEq, Eq, PartialOrd, Ord, Hash, Structural)]
pub enum Confidence {
    /// The object has an undefined dynamic symbol from the database.
    Direct,
    /// Inferred from read-only strings: a symbol name next to a dlopen/dlsym
    /// import, or a D-Bus interface name.
    Indirect,
}

/// The word for a confidence in reports.
pub open spec fn confidence_text(c: Confidence) -> &'static str {
    match c {
        Confidence::Direct => "direct",
        Confidence::Indirect => "indirect",
    }
}

impl Confidence {
    pub fn as_str(self) -> (r: &'static str)
        ensures
            r == confidence_text(self),
    {
        match self {
            Confidence::Direct => "direct",
            Confidence::Indirect => "indirect",
        }
    }
}

#[derive(Debug, Clone, PartialEq, Eq, PartialOrd, Ord, Hash)]
pub struct Evidence {
    pub capability: String,
    pub symbol: String,
    /// GNU version of the import, e.g. `XCB_1.0`, when the object records one.
    pub version: Option<String>,
    pub confidence: Confidence,
}

/// A piece of evidence with its words as text.
pub struct EvidenceModel {
    pub capability: Seq<char>,
    pub symbol: Seq<char>,
    pub version: Option<Seq<char>>,
    pub confidence: Confidence,
}

impl View for Evidence {
    type V = EvidenceModel;

    open spec fn view(&self) -> EvidenceModel {
        EvidenceModel {
            capability: self.capability@,
            symbol: self.symbol@,
            version: text_of(self.version),
            confidence: self.confidence,
        }
    }
}

/// No version comes before any version.
pub open spec fn version_before(a: Option<Seq<char>>, b: Option<Seq<char>>) -> bool {
    match (a, b) {
        (None, Some(_)) => true,
        (Some(x), Some(y)) => text_before(x, y),
        _ => false,
    }
}

pub open spec fn confidence_before(a: Confidence, b: Confidence) -> bool {
    a == Confidence::Direct && b == Confidence::Indirect
}

pub proof fn lemma_version_order(
    a: Option<Seq<char>>,
    b: Option<Seq<char>>,
    c: Option<Seq<char>>,
)
    ensures
        !version_before(a, a),
        a == b || version_before(a, b) || version_before(b, a),
        version_before(a, b) && version_before(b, c) ==> version_before(a, c),
{
    if let Some(x) = a {
        lemma_text_irreflexive(x);
        if let Some(y) = b {
            lemma_text_connected(x, y);
            if let Some(z) = c {
                if text_before(x, y) && text_before(y, z) {
                    lemma_text_transitive(x, y, z);
                }
            }
        }
    }
}

pub fn relate_version(a: &Option<String>, b: &Option<String>) -> (r: Relation)
    ensures
        match r {
            Relation::Before => version_before(text_of(*a), text_of(*b)),
            Relation::Same => text_of(*a) == text_of(*b),
            Relation::After => version_before(text_of(*b), text_of(*a)),
        },
{
    match (a, b) {
        (Some(x), Some(y)) => relate_text(x.as_str(), y.as_str()),
        (Some(_), None) => Relation::After,
        (None, Some(_)) => Relation::Before,
        (None, None) => Relation::Same,
    }
}

pub fn relate_confidence(a: Confidence, b: Confidence) -> (r: Relation)
    ensures
        match r {
            Relation::Before => confidence_before(a, b),
            Relation::Same => a == b,
            Relation::After => confidence_before(b, a),
        },
{
    match (a, b) {
        (Confidence::Direct, Confidence::Indirect) => Relation::Before,
        (Confidence::Indirect, Confidence::Direct) => Relation::After,
        _ => Relation::Same,
    }
}

/// By capability, symbol, version and confidence, in this order.
pub open spec fn evidence_before(a: EvidenceModel, b: EvidenceModel) -> bool {
    text_before(a.capability, b.capability) || (a.capability == b.capability && (text_before(
        a.symbol,
        b.symbol,
    ) || (a.symbol == b.symbol && (version_before(a.version, b.version) || (a.version == b.version
        && confidence_before(a.confidence, b.confidence))))))
}

impl Ordered for Evidence {
    open spec fn before(a: EvidenceModel, b: EvidenceModel) -> bool {
        evidence_before(a, b)
    }

    proof fn irreflexive(a: EvidenceModel) {
        lemma_text_irreflexive(a.capability);
        lemma_text_irreflexive(a.symbol);
        lemma_version_order(a.version, a.version, a.version);
    }

    proof fn transitive(a: EvidenceModel, b: EvidenceModel, c: EvidenceModel) {
        if text_before(a.capability, b.capability) && text_before(b.capability, c.capability) {
            lemma_text_transitive(a.capability, b.capability, c.capability);
        }
        if text_before(a.symbol, b.symbol) && text_before(b.symbol, c.symbol) {
            lemma_text_transitive(a.symbol, b.symbol, c.symbol);
        }
        lemma_version_order(a.version, b.version, c.version);
    }

    proof fn connected(a: EvidenceModel, b: EvidenceModel) {
        lemma_text_connected(a.capability, b.capability);
        lemma_text_connected(a.symbol, b.symbol);
        lemma_version_order(a.version, b.version, b.version);
    }

    fn relate(&self, other: &Self) -> Relation {
        match relate_text(self.capability.as_str(), other.capability.as_str()) {
            Relation::Same => match relate_text(self.symbol.as_str(), other.symbol.as_str()) {
                Relation::Same => match relate_version(&self.version, &other.version) {
                    Relation::Same => relate_confidence(self.confidence, other.confidence),
                    r => r,
                },
                r => r,
            },
            r => r,
        }
    }
}

#[derive(Debug, Clone, PartialEq, Eq, Default)]
pub struct ObjectAnalysis {
    pub evidence: Vec<Evidence>,
    pub imports_dynamic_loader: bool,
    /// Library names found in read-only strings of an object that can dlopen.
    pub dlopen_candidates: Vec<String>,
}

/// An analysis with its words as text.
pub struct AnalysisModel {
    pub evidence: Seq<EvidenceModel>,
    pub imports_dynamic_loader: bool,
    pub dlopen_candidates: Seq<Seq<char>>,
}

impl View for ObjectAnalysis {
    type V = AnalysisModel;

    open spec fn view(&self) -> AnalysisModel {
        AnalysisModel {
            evidence: views(self.evidence@),
            imports_dynamic_loader: self.imports_dynamic_loader,
            dlopen_candidates: texts(self.dlopen_candidates@),
        }
    }
}

/// A function that resolves symbols by name at run time.
pub open spec fn is_loader(name: Seq<char>) -> bool {
    exists|i: int| 0 <= i < DYNAMIC_LOADERS.len() && (#[trigger] DYNAMIC_LOADERS[i])@ == name
}

/// Some symbol of a list has the given name.
pub open spec fn names_symbol(symbols: Seq<SymbolModel>, name: Seq<char>) -> bool {
    exists|k: int| 0 <= k < symbols.len() && (#[trigger] symbols[k]).name == name
}

pub open spec fn names_loader(symbols: Seq<SymbolModel>) -> bool {
    exists|k: int| 0 <= k < symbols.len() && is_loader((#[trigger] symbols[k]).name)
}

/// The version name of a symbol.
pub open spec fn version_name(s: SymbolModel) -> Option<Seq<char>> {
    match s.version {
        Some(v) => Some(v.name),
        None => None,
    }
}

/// Some symbol of a list has the given name and version.
pub open spec fn names_versioned(
    symbols: Seq<SymbolModel>,
    name: Seq<char>,
    version: Option<Seq<char>>,
) -> bool {
    exists|k: int|
        0 <= k < symbols.len() && (#[trigger] symbols[k]).name == name && version_name(symbols[k])
            == version
}

/// A database position stands for the capability with the given id.
pub open spec fn owner_is(db: Seq<CapModel>, owner: Option<int>, id: Seq<char>) -> bool {
    owner matches Some(i) && db[i].id == id
}

/// What counts as evidence in an object with the given imports and strings. An
/// import from the database is direct evidence. A string from the database is
/// indirect evidence; so is the name of a database symbol, when the object can
/// load symbols by name and does not import that symbol anyway.
pub open spec fn is_evidence(
    imports: Seq<SymbolModel>,
    strings: Seq<Seq<char>>,
    db: Seq<CapModel>,
    e: EvidenceModel,
) -> bool {
    match e.confidence {
        Confidence::Direct => owner_is(db, cap_of_symbol(db, e.symbol), e.capability)
            && names_versioned(imports, e.symbol, e.version),
        Confidence::Indirect => e.version is None && strings.contains(e.symbol) && (owner_is(
            db,
            cap_of_string(db, e.symbol),
            e.capability,
        ) || (names_loader(imports) && owner_is(db, cap_of_symbol(db, e.symbol), e.capability)
            && !names_symbol(imports, e.symbol))),
    }
}

pub open spec fn evidence_set(
    imports: Seq<SymbolModel>,
    strings: Seq<Seq<char>>,
    db: Seq<CapModel>,
) -> Set<EvidenceModel> {
    Set::new(|e: EvidenceModel| is_evidence(imports, strings, db, e))
}

/// The part of a path behind its last slash.
pub open spec fn base_name(s: Seq<char>) -> Seq<char> {
    pieces(s, at_char('/')).last()
}

/// A file name that a shared library would have.
pub open spec fn is_library_name(s: Seq<char>) -> bool {
    let base = base_name(s);
    &&& has_prefix(base, "lib"@)
    &&& has_suffix(base, ".so"@) || has_infix(base, ".so."@)
    &&& forall|i: int| 0 <= i < base.len() ==> !is_space(#[trigger] base[i])
}

/// What the analysis of an object against a database says.
pub open spec fn analysis(elf: ElfModel, db: Seq<CapModel>) -> AnalysisModel {
    AnalysisModel {
        evidence: in_order::<Evidence>(evidence_set(elf.imports(), elf.rodata_strings, db)),
        imports_dynamic_loader: names_loader(elf.imports()),
        dlopen_candidates: if names_loader(elf.imports()) {
            elf.rodata_strings.filter(|s: Seq<char>| is_library_name(s))
        } else {
            Seq::empty()
        },
    }
}

fn loads_symbols(name: &str) -> (r: bool)
    ensures
        r == is_loader(name@),
{
    let loaders = DYNAMIC_LOADERS;
    let mut i: usize = 0;
    while i < 4
        invariant
            i <= 4,
            loaders == DYNAMIC_LOADERS,
            forall|j: int| 0 <= j < i ==> (#[trigger] DYNAMIC_LOADERS[j])@ != name@,
        decreases 4 - i,
    {
        if same_text(loaders[i], name) {
            assert(DYNAMIC_LOADERS[i as int]@ == name@);
            return true;
        }
        i = i + 1;
    }
    false
}

pub fn looks_like_library_name(s: &str) -> (r: bool)
    ensures
        r == is_library_name(s@),
{
    let chars = chars_of(s);
    let parts = split_char(&chars, '/');
    proof {
        lemma_pieces_nonempty(s@, at_char('/'));
        assert(runs(parts@).len() == parts@.len());
    }
    let base = parts[parts.len() - 1];
    assert(runs(parts@).last() == base@);
    if !starts_with(base, "lib") {
        return false;
    }
    if !ends_with(base, ".so") && !contains_text(base, ".so.") {
        return false;
    }
    let mut i: usize = 0;
    while i < base.len()
        invariant
            i <= base@.len(),
            base@ == base_name(s@),
            forall|j: int| 0 <= j < i ==> !is_space(#[trigger] base@[j]),
        decreases base@.len() - i,
    {
        if whitespace(base[i]) {
            return false;
        }
        i = i + 1;
    }
    true
}

/// Evidence from a prefix of the imports and a prefix of the strings of an object
/// whose imports are all known.
spec fn partial_set(
    imports: Seq<SymbolModel>,
    i: int,
    strings: Seq<Seq<char>>,
    j: int,
    db: Seq<CapModel>,
) -> Set<EvidenceModel> {
    Set::new(
        |e: EvidenceModel|
            match e.confidence {
                Confidence::Direct => is_evidence(imports.take(i), strings, db, e),
                Confidence::Indirect => is_evidence(imports, strings.take(j), db, e),
            },
    )
}

/// What one more import adds.
proof fn lemma_import_step(
    imports: Seq<SymbolModel>,
    i: int,
    strings: Seq<Seq<char>>,
    db: Seq<CapModel>,
)
    requires
        0 <= i < imports.len(),
    ensures
        match cap_of_symbol(db, imports[i].name) {
            Some(k) => partial_set(imports, i + 1, strings, 0, db) == partial_set(
                imports,
                i,
                strings,
                0,
                db,
            ).insert(
                EvidenceModel {
                    capability: db[k].id,
                    symbol: imports[i].name,
                    version: version_name(imports[i]),
                    confidence: Confidence::Direct,
                },
            ),
            None => partial_set(imports, i + 1, strings, 0, db) == partial_set(
                imports,
                i,
                strings,
                0,
                db,
            ),
        },
{
    let s = imports[i];
    let small = imports.take(i);
    let large = imports.take(i + 1);
    assert(large[i] == s);
    assert forall|name: Seq<char>, version: Option<Seq<char>>|
        names_versioned(large, name, version) == (names_versioned(small, name, version) || (s.name
            == name && version_name(s) == version)) by {
        if names_versioned(small, name, version) {
            let k = choose|k: int|
                0 <= k < small.len() && (#[trigger] small[k]).name == name && version_name(small[k])
                    == version;
            assert(large[k] == small[k]);
        }
        if names_versioned(large, name, version) {
            let k = choose|k: int|
                0 <= k < large.len() && (#[trigger] large[k]).name == name && version_name(large[k])
                    == version;
            if k < i {
                assert(large[k] == small[k]);
            }
        }
    }
    let before = partial_set(imports, i, strings, 0, db);
    let after = partial_set(imports, i + 1, strings, 0, db);
    match cap_of_symbol(db, s.name) {
        Some(k) => {
            let e = EvidenceModel {
                capability: db[k].id,
                symbol: s.name,
                version: version_name(s),
                confidence: Confidence::Direct,
            };
            assert(after =~= before.insert(e));
        },
        None => {
            assert(after =~= before);
        },
    }
}

/// What one more string adds.
proof fn lemma_string_step(
    imports: Seq<SymbolModel>,
    strings: Seq<Seq<char>>,
    j: int,
    db: Seq<CapModel>,
    e: EvidenceModel,
)
    requires
        0 <= j < strings.len(),
    ensures
        partial_set(imports, imports.len() as int, strings, j + 1, db).contains(e) <==> partial_set(
            imports,
            imports.len() as int,
            strings,
            j,
            db,
        ).contains(e) || (e.confidence == Confidence::Indirect && e.version is None && e.symbol
            == strings[j] && (owner_is(db, cap_of_string(db, e.symbol), e.capability) || (
        names_loader(imports) && owner_is(db, cap_of_symbol(db, e.symbol), e.capability)
            && !names_symbol(imports, e.symbol)))),
{
    let small = strings.take(j);
    let large = strings.take(j + 1);
    assert(large[j] == strings[j]);
    assert(large.contains(e.symbol) == (small.contains(e.symbol) || e.symbol == strings[j])) by {
        if small.contains(e.symbol) {
            let k = choose|k: int| 0 <= k < small.len() && small[k] == e.symbol;
            assert(large[k] == e.symbol);
        }
        if large.contains(e.symbol) {
            let k = choose|k: int| 0 <= k < large.len() && large[k] == e.symbol;
            if k < j {
                assert(small[k] == e.symbol);
            }
        }
    }
}

/// Whether some symbol of a list has the given name.
fn imports_symbol(symbols: &Vec<&Symbol>, name: &str) -> (r: bool)
    ensures
        r == names_symbol(views(symbols@), name@),
{
    let mut i: usize = 0;
    while i < symbols.len()
        invariant
            i <= symbols@.len(),
            forall|k: int| 0 <= k < i ==> (#[trigger] views(symbols@)[k]).name != name@,
        decreases symbols@.len() - i,
    {
        assert(views(symbols@)[i as int] == symbols@[i as int]@);
        if same_text(symbols[i].name.as_str(), name) {
            return true;
        }
        i = i + 1;
    }
    false
}

fn indirect(capability: &String, symbol: &String) -> (r: Evidence)
    ensures
        r@ == (EvidenceModel {
            capability: capability@,
            symbol: symbol@,
            version: None,
            confidence: Confidence::Indirect,
        }),
{
    Evidence {
        capability: capability.clone(),
        symbol: symbol.clone(),
        version: None,
        confidence: Confidence::Indirect,
    }
}

pub fn analyze(elf: &ElfFile, db: &CapDb) -> (r: ObjectAnalysis)
    ensures
        r@ == analysis(elf@, db@),
{
    let symbols = elf.imports();
    let ghost imports = elf@.imports();
    let ghost strings = elf@.rodata_strings;
    let ghost all = imports.len() as int;
    let mut evidence: Vec<Evidence> = Vec::new();
    let mut loader = false;
    let mut i: usize = 0;
    assert(views(evidence@).to_set() =~= partial_set(imports, 0, strings, 0, db@)) by {
        assert(imports.take(0).len() == 0);
        assert(strings.take(0).len() == 0);
    }
    while i < symbols.len()
        invariant
            i <= symbols@.len(),
            views(symbols@) == imports,
            ascending::<Evidence>(views(evidence@)),
            views(evidence@).to_set() == partial_set(imports, i as int, strings, 0, db@),
            loader == (exists|k: int| 0 <= k < i && is_loader((#[trigger] imports[k]).name)),
        decreases symbols@.len() - i,
    {
        let sym = symbols[i];
        assert(imports[i as int] == sym@);
        if loads_symbols(sym.name.as_str()) {
            assert(is_loader(imports[i as int].name));
            loader = true;
        }
        proof {
            lemma_import_step(imports, i as int, strings, db@);
        }
        if let Some(cap) = db.for_symbol(sym.name.as_str()) {
            let version = match &sym.version {
                Some(v) => Some(v.name.clone()),
                None => None,
            };
            insert_unique(
                &mut evidence,
                Evidence {
                    capability: cap.id.clone(),
                    symbol: sym.name.clone(),
                    version,
                    confidence: Confidence::Direct,
                },
            );
        }
        i = i + 1;
    }
    assert(loader == names_loader(imports));
    let mut dlopen_candidates: Vec<String> = Vec::new();
    let mut j: usize = 0;
    let ghost keep = |s: Seq<char>| is_library_name(s);
    assert(texts(dlopen_candidates@) =~= strings.take(0).filter(keep));
    while j < elf.rodata_strings.len()
        invariant
            j <= elf.rodata_strings@.len(),
            strings == texts(elf.rodata_strings@),
            imports == views(symbols@),
            all == imports.len(),
            ascending::<Evidence>(views(evidence@)),
            views(evidence@).to_set() == partial_set(imports, all, strings, j as int, db@),
            loader == names_loader(imports),
            keep == (|s: Seq<char>| is_library_name(s)),
            loader ==> texts(dlopen_candidates@) == strings.take(j as int).filter(keep),
            !loader ==> dlopen_candidates@.len() == 0,
        decreases elf.rodata_strings@.len() - j,
    {
        let s = &elf.rodata_strings[j];
        let ghost before = views(evidence@).to_set();
        assert(strings[j as int] == s@);
        if let Some(cap) = db.for_string(s.as_str()) {
            insert_unique(&mut evidence, indirect(&cap.id, s));
        }
        if loader {
            if let Some(cap) = db.for_symbol(s.as_str()) {
                // A direct import of the same symbol already says more.
                if !imports_symbol(&symbols, s.as_str()) {
                    insert_unique(&mut evidence, indirect(&cap.id, s));
                }
            }
            let ghost listed = texts(dlopen_candidates@);
            if looks_like_library_name(s.as_str()) {
                dlopen_candidates.push(s.clone());
                assert(texts(dlopen_candidates@) =~= listed.push(s@));
            }
            proof {
                assert(strings.take(j + 1) =~= strings.take(j as int).push(s@));
                strings.take(j as int).lemma_filter_push(s@, keep);
            }
        }
        proof {
            let next = partial_set(imports, all, strings, j + 1, db@);
            assert forall|e: EvidenceModel| views(evidence@).to_set().contains(e)
                == next.contains(e) by {
                lemma_string_step(imports, strings, j as int, db@, e);
            }
            assert(views(evidence@).to_set() =~= next);
        }
        j = j + 1;
    }
    proof {
        assert(imports.take(all) =~= imports);
        assert(strings.take(j as int) =~= strings);
        assert(partial_set(imports, all, strings, j as int, db@) =~= evidence_set(
            imports,
            strings,
            db@,
        ));
        lemma_in_order::<Evidence>(views(evidence@));
        if !loader {
            assert(texts(dlopen_candidates@) =~= Seq::empty());
        }
    }
    ObjectAnalysis { evidence, imports_dynamic_loader: loader, dlopen_candidates }
}

} // verus!
