//! Laws of reports: what a report says of every object, finding and error, in terms
//! of the files that were reached and of the database.

use crate::analysis::{analysis, Confidence, EvidenceModel};
use crate::capdb::{lemma_first_cap, lemma_no_cap, CapModel};
use crate::elf::{class_text, Class, Endian};
use crate::elf_model::ElfModel;
use crate::evidence_laws::{
    is_library_path, law_candidates_are_library_names, lemma_least, loads_by_name,
};
use crate::loader::{is_load_list, Answers, LoadedModel, ObjectModel};
use crate::loader_laws::{law_load_lists_are_sound, links_fit, resolved_rightly};
use crate::order::{in_order, lemma_in_order_ascending, text_before};
use crate::scan::{
    file_errors, finding, finding_before, finding_key, is_report, is_started, load_chain, load_list,
    needed_models, object_report, rank_of, recorded, scan_order, settled, title_of, with_loaded,
    FileErrorModel, FindingModel, NeededModel, ReachedModel, ReportModel, StateModel,
};
use crate::scan_laws::{law_chains_are_complete, law_findings_are_credited_to_the_holder, lists};
use crate::search_laws::{is_link, is_loader_chain};
use vstd::prelude::*;

verus! {

/// What ld.so can be started on: type 2, or type 3 with a program header of type 3.
pub open spec fn runs(elf: ElfModel) -> bool {
    elf.file_type == 2 || (elf.file_type == 3 && exists|i: int|
        0 <= i < elf.segments.len() && (#[trigger] elf.segments[i]).kind == 3)
}

/// The word for a class and byte order.
pub open spec fn format_word(elf: ElfModel) -> Seq<char> {
    match (elf.class, elf.endian) {
        (Class::Elf32, Endian::Little) => "ELF32-LE"@,
        (Class::Elf32, Endian::Big) => "ELF32-BE"@,
        (Class::Elf64, Endian::Little) => "ELF64-LE"@,
        (Class::Elf64, Endian::Big) => "ELF64-BE"@,
    }
}

/// A report lists every object that was reached, each once, in the order of the
/// paths, and no other.
pub proof fn law_a_report_lists_what_was_reached(
    r: ReportModel,
    root: Seq<char>,
    st: StateModel,
    errors: Map<Seq<char>, Seq<char>>,
    db: Seq<CapModel>,
)
    requires
        is_report(r, root, st, errors, db),
        st.dom().finite(),
    ensures
        r.root == root,
        forall|i: int, j: int|
            0 <= i < j < r.objects.len() ==> text_before(
                (#[trigger] r.objects[i]).path,
                (#[trigger] r.objects[j]).path,
            ),
        forall|p: Seq<char>| #[trigger]
            st.contains_key(p) <==> exists|i: int|
                0 <= i < r.objects.len() && (#[trigger] r.objects[i]).path == p,
{
    let paths = in_order::<String>(st.dom());
    lemma_in_order_ascending::<String>(st.dom());
    assert forall|p: Seq<char>| #[trigger] st.contains_key(p) <==> exists|i: int|
        0 <= i < r.objects.len() && (#[trigger] r.objects[i]).path == p by {
        assert(paths.to_set().contains(p) == st.dom().contains(p));
        if st.contains_key(p) {
            let i = choose|i: int| 0 <= i < paths.len() && paths[i] == p;
            assert(r.objects[i].path == p);
        }
        if exists|i: int| 0 <= i < r.objects.len() && (#[trigger] r.objects[i]).path == p {
            let i = choose|i: int| 0 <= i < r.objects.len() && (#[trigger] r.objects[i]).path == p;
            assert(paths[i] == p);
        }
    }
    assert forall|i: int, j: int| 0 <= i < j < r.objects.len() implies text_before(
        (#[trigger] r.objects[i]).path,
        (#[trigger] r.objects[j]).path,
    ) by {
        assert(r.objects[i].path == paths[i] && r.objects[j].path == paths[j]);
    }
}

/// What a report says of an object is what the file that was reached at its path
/// says: each field is the field of the same name, never another.
pub proof fn law_a_report_says_what_the_file_says(
    r: ReportModel,
    root: Seq<char>,
    st: StateModel,
    errors: Map<Seq<char>, Seq<char>>,
    db: Seq<CapModel>,
    i: int,
)
    requires
        is_report(r, root, st, errors, db),
        st.dom().finite(),
        0 <= i < r.objects.len(),
    ensures
        st.contains_key(r.objects[i].path),
        r.objects[i].machine == st[r.objects[i].path].object.elf.machine,
        r.objects[i].soname == st[r.objects[i].path].object.elf.soname,
        r.objects[i].rpath == st[r.objects[i].path].object.elf.rpath,
        r.objects[i].runpath == st[r.objects[i].path].object.elf.runpath,
        r.objects[i].needed == st[r.objects[i].path].needed,
        r.objects[i].executable == runs(st[r.objects[i].path].object.elf),
        r.objects[i].format == format_word(st[r.objects[i].path].object.elf),
        r.objects[i].imports_dynamic_loader == loads_by_name(st[r.objects[i].path].object.elf),
        r.objects[i].dlopen_candidates == if loads_by_name(st[r.objects[i].path].object.elf) {
            st[r.objects[i].path].object.elf.rodata_strings.filter(
                |s: Seq<char>| is_library_path(s),
            )
        } else {
            Seq::empty()
        },
{
    let paths = in_order::<String>(st.dom());
    lemma_in_order_ascending::<String>(st.dom());
    let p = paths[i];
    assert(paths.to_set().contains(p));
    assert(r.objects[i] == object_report(p, st[p], db));
    let elf = st[p].object.elf;
    law_candidates_are_library_names(elf, db);
    lemma_runs(elf);
    assert(class_text(elf.class, elf.endian)@ == format_word(elf));
    if !loads_by_name(elf) {
        assert(analysis(elf, db).dlopen_candidates =~= Seq::empty());
    }
}

proof fn lemma_runs(elf: ElfModel)
    ensures
        elf.is_executable() == runs(elf),
{
}

/// The title of the first capability with an id; an empty one where there is none.
pub open spec fn is_title(db: Seq<CapModel>, id: Seq<char>, title: Seq<char>) -> bool {
    (exists|i: int|
        0 <= i < db.len() && (#[trigger] db[i]).id == id && db[i].title == title && forall|j: int|
            0 <= j < i ==> (#[trigger] db[j]).id != id) || (title.len() == 0 && forall|i: int|
        0 <= i < db.len() ==> (#[trigger] db[i]).id != id)
}

proof fn lemma_title(db: Seq<CapModel>, id: Seq<char>, title: Seq<char>)
    ensures
        is_title(db, id, title) <==> title == title_of(db, id),
{
    let p = |c: CapModel| c.id == id;
    if exists|i: int| 0 <= i < db.len() && #[trigger] p(db[i]) {
        let i = lemma_least(db, p);
        lemma_first_cap(db, p, 0, i);
        assert(db[i].id == id);
        assert forall|j: int| 0 <= j < i implies (#[trigger] db[j]).id != id by {
            assert(!p(db[j]));
        }
        if is_title(db, id, title) {
            let k = choose|k: int|
                0 <= k < db.len() && (#[trigger] db[k]).id == id && db[k].title == title && forall|
                    j: int,
                |
                    0 <= j < k ==> (#[trigger] db[j]).id != id;
            if k < i {
                assert(!p(db[k]));
            } else if i < k {
                assert(db[i].id != id);
            }
        }
    } else {
        assert forall|j: int| 0 <= j < db.len() implies !p(#[trigger] db[j]) by {}
        lemma_no_cap(db, p, 0);
        assert forall|i: int| 0 <= i < db.len() implies (#[trigger] db[i]).id != id by {
            assert(!p(db[i]));
        }
        if is_title(db, id, title) {
            assert(title =~= Seq::<char>::empty());
        }
    }
}

/// A finding stands for a piece of evidence in the file that was reached at the
/// finding's own object, with the same capability, symbol, version and confidence,
/// with the title of the capability, and with every load chain of that object; and
/// every such piece of evidence has its finding.
pub proof fn law_findings_are_the_evidence(
    r: ReportModel,
    root: Seq<char>,
    st: StateModel,
    errors: Map<Seq<char>, Seq<char>>,
    db: Seq<CapModel>,
    f: FindingModel,
)
    requires
        is_report(r, root, st, errors, db),
        st.dom().finite(),
    ensures
        r.findings.contains(f) <==> st.contains_key(f.object) && f.reached_via
            == st[f.object].chains && is_title(db, f.capability, f.title) && analysis(
            st[f.object].object.elf,
            db,
        ).evidence.contains(
            EvidenceModel {
                capability: f.capability,
                symbol: f.symbol,
                version: f.version,
                confidence: f.confidence,
            },
        ),
{
    law_findings_are_credited_to_the_holder(r, root, st, errors, db, f);
    lemma_title(db, f.capability, f.title);
    let own = EvidenceModel {
        capability: f.capability,
        symbol: f.symbol,
        version: f.version,
        confidence: f.confidence,
    };
    if r.findings.contains(f) {
        let e = choose|e: EvidenceModel|
            st.contains_key(f.object) && #[trigger] analysis(
                st[f.object].object.elf,
                db,
            ).evidence.contains(e) && f == finding(e, f.object, st[f.object].chains, db);
        assert(e == own);
    }
    if st.contains_key(f.object) && f.reached_via == st[f.object].chains && is_title(
        db,
        f.capability,
        f.title,
    ) && analysis(st[f.object].object.elf, db).evidence.contains(own) {
        assert(f == finding(own, f.object, st[f.object].chains, db));
    }
}

/// The `x`th capability is the first with an id.
pub open spec fn stands_at(db: Seq<CapModel>, x: int, id: Seq<char>) -> bool {
    0 <= x < db.len() && db[x].id == id && forall|j: int|
        0 <= j < x ==> (#[trigger] db[j]).id != id
}

/// Findings come in the order of the database, for one capability in the order of
/// the objects, for one object direct before indirect, and there in the order of the
/// symbols.
pub proof fn law_findings_come_in_order(
    r: ReportModel,
    root: Seq<char>,
    st: StateModel,
    errors: Map<Seq<char>, Seq<char>>,
    db: Seq<CapModel>,
    i: int,
    j: int,
    x: int,
    y: int,
)
    requires
        is_report(r, root, st, errors, db),
        db.len() <= usize::MAX,
        0 <= i < j < r.findings.len(),
        stands_at(db, x, r.findings[i].capability),
        stands_at(db, y, r.findings[j].capability),
    ensures
        x <= y,
        x == y ==> !text_before(r.findings[j].object, r.findings[i].object),
        x == y && r.findings[i].object == r.findings[j].object && r.findings[j].confidence
            == Confidence::Direct ==> r.findings[i].confidence == Confidence::Direct,
        x == y && r.findings[i].object == r.findings[j].object && r.findings[i].confidence
            == r.findings[j].confidence ==> !text_before(
            r.findings[j].symbol,
            r.findings[i].symbol,
        ),
{
    let a = r.findings[i];
    let b = r.findings[j];
    lemma_rank(db, x, a.capability);
    lemma_rank(db, y, b.capability);
    assert(!finding_before(finding_key(db, b), finding_key(db, a)));
}

proof fn lemma_rank(db: Seq<CapModel>, x: int, id: Seq<char>)
    requires
        stands_at(db, x, id),
        db.len() <= usize::MAX,
    ensures
        rank_of(db, id) == x,
{
    let p = |c: CapModel| c.id == id;
    assert(p(db[x]));
    assert forall|j: int| 0 <= j < x implies !p(#[trigger] db[j]) by {
        assert(db[j].id != id);
    }
    lemma_first_cap(db, p, 0, x);
}

/// The errors of a report are those of the bundle: each path once, in order, with its
/// own message.
pub proof fn law_errors_are_all_listed(
    r: ReportModel,
    root: Seq<char>,
    st: StateModel,
    errors: Map<Seq<char>, Seq<char>>,
    db: Seq<CapModel>,
)
    requires
        is_report(r, root, st, errors, db),
        errors.dom().finite(),
    ensures
        forall|i: int, j: int|
            0 <= i < j < r.errors.len() ==> text_before(
                (#[trigger] r.errors[i]).path,
                (#[trigger] r.errors[j]).path,
            ),
        forall|e: FileErrorModel| #[trigger]
            r.errors.contains(e) <==> errors.contains_key(e.path) && errors[e.path] == e.message,
{
    let paths = in_order::<String>(errors.dom());
    lemma_in_order_ascending::<String>(errors.dom());
    assert(r.errors == file_errors(errors));
    assert forall|e: FileErrorModel| #[trigger]
        r.errors.contains(e) <==> errors.contains_key(e.path) && errors[e.path] == e.message by {
        assert(paths.to_set().contains(e.path) == errors.dom().contains(e.path));
        if r.errors.contains(e) {
            let i = choose|i: int| 0 <= i < r.errors.len() && r.errors[i] == e;
            assert(paths[i] == e.path);
        }
        if errors.contains_key(e.path) && errors[e.path] == e.message {
            let i = choose|i: int| 0 <= i < paths.len() && paths[i] == e.path;
            assert(r.errors[i] == e);
        }
    }
    assert forall|i: int, j: int| 0 <= i < j < r.errors.len() implies text_before(
        (#[trigger] r.errors[i]).path,
        (#[trigger] r.errors[j]).path,
    ) by {
        assert(r.errors[i].path == paths[i] && r.errors[j].path == paths[j]);
    }
}

/// Executables come first and libraries after them, all of them, each kind in the
/// order in which the files were collected.
pub proof fn law_scans_start_with_executables(objects: Seq<ObjectModel>)
    ensures
        scan_order(objects) == objects.filter(|o: ObjectModel| runs(o.elf)) + objects.filter(
            |o: ObjectModel| !runs(o.elf),
        ),
{
    let a = |o: ObjectModel| o.elf.is_executable();
    let b = |o: ObjectModel| runs(o.elf);
    let c = |o: ObjectModel| !o.elf.is_executable();
    let d = |o: ObjectModel| !runs(o.elf);
    assert forall|o: ObjectModel| #[trigger] a(o) == b(o) by {
        lemma_runs(o.elf);
    }
    assert forall|o: ObjectModel| #[trigger] c(o) == d(o) by {
        lemma_runs(o.elf);
    }
    assert(a =~= b);
    assert(c =~= d);
}

/// A load chain runs from the object that ld.so was started on to the object itself,
/// and each of its members loaded the next.
pub proof fn law_load_chains_follow_the_loaders(loaded: Seq<LoadedModel>, chain: Seq<int>, k: int)
    requires
        is_loader_chain(loaded, chain, k),
    ensures
        load_chain(loaded, k).len() == chain.len(),
        forall|i: int|
            0 <= i < chain.len() ==> #[trigger] load_chain(loaded, k)[i] == loaded[chain[chain.len()
                - 1 - i]].object.rel,
    decreases chain.len(),
{
    let rest = chain.drop_first();
    if chain.len() > 1 {
        assert(is_link(loaded, chain, 0));
        assert forall|i: int| 0 <= i < rest.len() - 1 implies #[trigger] is_link(
            loaded,
            rest,
            i,
        ) by {
            assert(is_link(loaded, chain, i + 1));
        }
        law_load_chains_follow_the_loaders(loaded, rest, chain[1]);
        assert forall|i: int| 0 <= i < chain.len() implies #[trigger] load_chain(loaded, k)[i]
            == loaded[chain[chain.len() - 1 - i]].object.rel by {
            if i < rest.len() {
                assert(load_chain(loaded, chain[1])[i] == loaded[rest[rest.len() - 1
                    - i]].object.rel);
                assert(rest[rest.len() - 1 - i] == chain[chain.len() - 1 - i]);
            }
        }
    } else {
        assert(chain.last() == k);
    }
}

/// Every object of a load list has a chain of loaders up to the first.
pub proof fn law_every_object_has_a_loader_chain(
    answers: Answers,
    root: Seq<char>,
    entry: ObjectModel,
    list: Seq<LoadedModel>,
    k: int,
) -> (chain: Seq<int>)
    requires
        is_load_list(answers, root, entry, list),
        0 <= k < list.len(),
    ensures
        is_loader_chain(list, chain, k),
        chain.last() == 0,
    decreases k,
{
    law_load_lists_are_sound(answers, root, entry, list);
    if k == 0 {
        seq![0int]
    } else {
        let j = list[k].loader->Some_0;
        let rest = law_every_object_has_a_loader_chain(answers, root, entry, list, j);
        let chain = seq![k] + rest;
        assert forall|i: int| 0 <= i < chain.len() - 1 implies #[trigger] is_link(
            list,
            chain,
            i,
        ) by {
            if i > 0 {
                assert(is_link(list, rest, i - 1));
            }
        }
        assert(chain.last() == rest.last());
        chain
    }
}

/// What is reported of the dependencies of the `k`th object of a load list: every
/// needed name, in order, with the path of the object that the name leads to.
pub open spec fn reports_needed(list: Seq<LoadedModel>, k: int, needed: Seq<NeededModel>) -> bool {
    &&& needed.len() == list[k].object.elf.needed.len()
    &&& list[k].needed.len() == needed.len()
    &&& forall|m: int|
        0 <= m < needed.len() ==> (#[trigger] needed[m]).name == list[k].object.elf.needed[m]
            && match list[k].needed[m].resolved {
            Some(x) => 0 <= x < list.len() && needed[m].resolved == Some(list[x].object.rel),
            None => needed[m].resolved is None,
        }
}

/// The `j`th simulation is the first that reaches a path, with the `k`th object of its
/// load list, and what is known of the path is what that simulation found.
pub open spec fn is_first_at(
    answers: Answers,
    root: Seq<char>,
    entries: Seq<ObjectModel>,
    j: int,
    k: int,
    p: Seq<char>,
    r: ReachedModel,
) -> bool {
    let list = load_list(answers, root, entries[j]);
    &&& is_load_list(answers, root, entries[j], list)
    &&& 0 <= k < list.len()
    &&& list[k].object.rel == p
    &&& r.object == list[k].object
    &&& reports_needed(list, k, r.needed)
    &&& !recorded(answers, root, entries, j).contains_key(p)
    &&& runs(entries[j].elf) || !recorded(answers, root, entries, j).contains_key(entries[j].rel)
}

proof fn lemma_first_of_list(
    st: StateModel,
    list: Seq<LoadedModel>,
    n: int,
    p: Seq<char>,
)
    requires
        0 <= n <= list.len(),
    ensures
        with_loaded(st, list, n).contains_key(p) && !st.contains_key(p) ==> exists|k: int|
            0 <= k < n && (#[trigger] list[k]).object.rel == p && with_loaded(st, list, n)[p].object
                == list[k].object && with_loaded(st, list, n)[p].needed == needed_models(
                list,
                list[k].needed,
            ),
        st.contains_key(p) ==> with_loaded(st, list, n).contains_key(p) && with_loaded(
            st,
            list,
            n,
        )[p].object == st[p].object && with_loaded(st, list, n)[p].needed == st[p].needed,
    decreases n,
{
    if n > 0 {
        lemma_first_of_list(st, list, n - 1, p);
        let before = with_loaded(st, list, n - 1);
        let after = with_loaded(st, list, n);
        if after.contains_key(p) && !st.contains_key(p) {
            if before.contains_key(p) {
                let k = choose|k: int|
                    0 <= k < n - 1 && (#[trigger] list[k]).object.rel == p && before[p].object
                        == list[k].object && before[p].needed == needed_models(list, list[k].needed);
                assert(0 <= k < n && list[k].object.rel == p && after[p].object == list[k].object
                    && after[p].needed == needed_models(list, list[k].needed));
            } else {
                assert(list[n - 1].object.rel == p);
            }
        }
    }
}

/// What a report says of an object and its dependencies is what the first simulation
/// that reaches it found; simulations are started on every executable, and on a
/// library that none before has reached.
pub proof fn law_the_first_simulation_is_reported(
    answers: Answers,
    root: Seq<char>,
    entries: Seq<ObjectModel>,
    n: int,
    p: Seq<char>,
)
    requires
        0 <= n <= entries.len(),
        settled(answers, root, entries, n),
        recorded(answers, root, entries, n).contains_key(p),
    ensures
        exists|j: int, k: int|
            0 <= j < n && #[trigger] is_first_at(
                answers,
                root,
                entries,
                j,
                k,
                p,
                recorded(answers, root, entries, n)[p],
            ),
    decreases n,
{
    let st = recorded(answers, root, entries, n - 1);
    let after = recorded(answers, root, entries, n);
    if n > 0 {
        let e = entries[n - 1];
        let list = load_list(answers, root, e);
        if is_started(st, e) {
            lemma_first_of_list(st, list, list.len() as int, p);
        }
        if st.contains_key(p) {
            law_the_first_simulation_is_reported(answers, root, entries, n - 1, p);
            let (j, k) = choose|j: int, k: int|
                0 <= j < n - 1 && #[trigger] is_first_at(answers, root, entries, j, k, p, st[p]);
            assert(is_first_at(answers, root, entries, j, k, p, after[p]));
        } else {
            assert(is_started(st, e));
            let k = choose|k: int|
                0 <= k < list.len() && (#[trigger] list[k]).object.rel == p && after[p].object
                    == list[k].object && after[p].needed == needed_models(list, list[k].needed);
            law_load_lists_are_sound(answers, root, e, list);
            assert(resolved_rightly(list, k));
            assert(links_fit(list, list[k].object.elf.needed, list[k].needed));
            let needed = after[p].needed;
            assert forall|m: int| 0 <= m < needed.len() implies (#[trigger] needed[m]).name
                == list[k].object.elf.needed[m] && match list[k].needed[m].resolved {
                Some(x) => 0 <= x < list.len() && needed[m].resolved == Some(list[x].object.rel),
                None => needed[m].resolved is None,
            } by {
                assert(list[k].needed[m].name == list[k].object.elf.needed[m]);
            }
            lemma_runs(e.elf);
            assert(is_first_at(answers, root, entries, n - 1, k, p, after[p]));
        }
    }
}

/// An executable is always started, and so is a library that nothing has reached: the
/// chain that consists of the object alone is listed. A library that was reached
/// before adds nothing.
pub proof fn law_unlinked_libraries_are_started(
    answers: Answers,
    root: Seq<char>,
    entries: Seq<ObjectModel>,
    n: int,
)
    requires
        0 <= n < entries.len(),
        settled(answers, root, entries, n + 1),
    ensures
        runs(entries[n].elf) || !recorded(answers, root, entries, n).contains_key(entries[n].rel)
            ==> lists(
            recorded(answers, root, entries, n + 1),
            entries[n].rel,
            seq![entries[n].rel],
        ),
        !runs(entries[n].elf) && recorded(answers, root, entries, n).contains_key(entries[n].rel)
            ==> recorded(answers, root, entries, n + 1) == recorded(answers, root, entries, n),
{
    let e = entries[n];
    let st = recorded(answers, root, entries, n);
    lemma_runs(e.elf);
    if is_started(st, e) {
        let list = load_list(answers, root, e);
        assert(is_load_list(answers, root, e, list));
        law_load_lists_are_sound(answers, root, e, list);
        assert(load_chain(list, 0) =~= seq![e.rel]);
        assert(crate::scan_laws::chain_at(list, 0, e.rel, seq![e.rel]));
        assert(crate::scan_laws::is_loaded_over(answers, root, entries, n, e.rel, seq![e.rel]));
        law_chains_are_complete(answers, root, entries, n + 1, e.rel, seq![e.rel]);
    }
}

} // verus!
