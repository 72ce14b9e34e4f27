//! Laws of scans and reports.

use crate::analysis::{analysis, EvidenceModel};
use crate::capdb::CapModel;
use crate::loader::{Answers, LoadedModel, ObjectModel};
use crate::loader_laws::law_load_lists_are_sound;
use crate::order::{in_order, lemma_in_order_ascending};
use crate::scan::{
    all_findings, finding, finding_before, finding_key, is_report, is_started, load_chain,
    load_list, object_findings, recorded, scan_order, settled, with_loaded, with_reached,
    FindingKeyModel, FindingModel, ReachedModel, ReportModel, StateModel,
};
use crate::sort::{is_stable_order, keyed};
use vstd::prelude::*;

verus! {

/// A state keeps what it has when more is taken note of.
proof fn lemma_loaded_keys(st: StateModel, loaded: Seq<LoadedModel>, n: int)
    requires
        0 <= n <= loaded.len(),
    ensures
        forall|p: Seq<char>| #[trigger]
            with_loaded(st, loaded, n).contains_key(p) <==> st.contains_key(p) || exists|k: int|
                0 <= k < n && (#[trigger] loaded[k]).object.rel == p,
    decreases n,
{
    if n > 0 {
        lemma_loaded_keys(st, loaded, n - 1);
        let before = with_loaded(st, loaded, n - 1);
        assert forall|p: Seq<char>| #[trigger]
            with_loaded(st, loaded, n).contains_key(p) <==> st.contains_key(p) || exists|k: int|
                0 <= k < n && (#[trigger] loaded[k]).object.rel == p by {
            assert(with_loaded(st, loaded, n).contains_key(p) <==> before.contains_key(p)
                || loaded[n - 1].object.rel == p);
        }
    }
}

/// Every object that a scan starts from is reached in the end: no file is left
/// out because nothing links to it.
pub proof fn law_every_object_is_reached(
    answers: Answers,
    root: Seq<char>,
    entries: Seq<ObjectModel>,
    n: int,
    j: int,
)
    requires
        0 <= j < n <= entries.len(),
        settled(answers, root, entries, n),
    ensures
        recorded(answers, root, entries, n).contains_key(entries[j].rel),
    decreases n,
{
    let st = recorded(answers, root, entries, n - 1);
    let e = entries[n - 1];
    let list = load_list(answers, root, e);
    if is_started(st, e) {
        lemma_loaded_keys(st, list, list.len() as int);
    }
    if j < n - 1 {
        law_every_object_is_reached(answers, root, entries, n - 1, j);
    } else if is_started(st, e) {
        law_load_lists_are_sound(answers, root, e, list);
        assert(list[0].object.rel == e.rel);
    }
}

/// What is known of an object stays, and chains are only added behind those it has.
pub open spec fn keeps(a: StateModel, b: StateModel) -> bool {
    forall|p: Seq<char>| #[trigger]
        a.contains_key(p) ==> b.contains_key(p) && b[p].object == a[p].object && b[p].needed
            == a[p].needed && a[p].chains.is_prefix_of(b[p].chains)
}

proof fn lemma_loaded_keeps(st: StateModel, loaded: Seq<LoadedModel>, n: int)
    ensures
        keeps(st, with_loaded(st, loaded, n)),
    decreases n,
{
    if n > 0 {
        lemma_loaded_keeps(st, loaded, n - 1);
        let before = with_loaded(st, loaded, n - 1);
        let after = with_loaded(st, loaded, n);
        assert forall|p: Seq<char>| #[trigger] st.contains_key(p) implies after.contains_key(p)
            && after[p].object == st[p].object && after[p].needed == st[p].needed
            && st[p].chains.is_prefix_of(after[p].chains) by {
            assert(before.contains_key(p));
            let a = st[p].chains;
            let b = before[p].chains;
            let c = after[p].chains;
            assert(a =~= c.subrange(0, a.len() as int)) by {
                assert(a =~= b.subrange(0, a.len() as int));
            }
        }
    }
}

/// The simulation that first reaches an object decides what is reported of its
/// dependencies, and later ones only add load chains behind those that are known.
/// Executables are simulated first, so what they load counts, and their chains
/// come before those of libraries that nothing links to.
pub proof fn law_the_first_simulation_counts(
    answers: Answers,
    root: Seq<char>,
    entries: Seq<ObjectModel>,
    m: int,
    n: int,
)
    requires
        0 <= m <= n,
    ensures
        keeps(recorded(answers, root, entries, m), recorded(answers, root, entries, n)),
    decreases n - m,
{
    let a = recorded(answers, root, entries, m);
    if m < n {
        law_the_first_simulation_counts(answers, root, entries, m, n - 1);
        let b = recorded(answers, root, entries, n - 1);
        let c = recorded(answers, root, entries, n);
        let e = entries[n - 1];
        if is_started(b, e) {
            let list = load_list(answers, root, e);
            lemma_loaded_keeps(b, list, list.len() as int);
            assert forall|p: Seq<char>| #[trigger] a.contains_key(p) implies c.contains_key(p)
                && c[p].object == a[p].object && c[p].needed == a[p].needed
                && a[p].chains.is_prefix_of(c[p].chains) by {
                assert(b.contains_key(p));
                let x = a[p].chains;
                assert(x =~= c[p].chains.subrange(0, x.len() as int)) by {
                    assert(x =~= b[p].chains.subrange(0, x.len() as int));
                    assert(b[p].chains =~= c[p].chains.subrange(0, b[p].chains.len() as int));
                }
            }
        }
    } else {
        assert forall|p: Seq<char>| #[trigger] a.contains_key(p) implies a[p].chains.is_prefix_of(
            a[p].chains,
        ) by {
            assert(a[p].chains =~= a[p].chains.subrange(0, a[p].chains.len() as int));
        }
    }
}

/// A state lists a chain for an object.
pub open spec fn lists(st: StateModel, p: Seq<char>, chain: Seq<Seq<char>>) -> bool {
    st.contains_key(p) && st[p].chains.contains(chain)
}

/// The load chain of the `k`th object of a load list, which is the one at `p`.
pub open spec fn chain_at(
    loaded: Seq<LoadedModel>,
    k: int,
    p: Seq<char>,
    chain: Seq<Seq<char>>,
) -> bool {
    loaded[k].object.rel == p && load_chain(loaded, k) == chain
}

proof fn lemma_loaded_chains(
    st: StateModel,
    loaded: Seq<LoadedModel>,
    n: int,
    p: Seq<char>,
    chain: Seq<Seq<char>>,
)
    requires
        0 <= n <= loaded.len(),
    ensures
        lists(with_loaded(st, loaded, n), p, chain) <==> lists(st, p, chain) || exists|k: int|
            0 <= k < n && #[trigger] chain_at(loaded, k, p, chain),
    decreases n,
{
    if n > 0 {
        lemma_loaded_chains(st, loaded, n - 1, p, chain);
        let before = with_loaded(st, loaded, n - 1);
        let after = with_loaded(st, loaded, n);
        let own = load_chain(loaded, n - 1);
        assert(lists(after, p, chain) <==> lists(before, p, chain) || chain_at(
            loaded,
            n - 1,
            p,
            chain,
        )) by {
            if loaded[n - 1].object.rel == p {
                if before.contains_key(p) {
                    let old_chains = before[p].chains;
                    if !old_chains.contains(own) {
                        assert(after[p].chains == old_chains.push(own));
                        assert(old_chains.push(own)[old_chains.len() as int] == own);
                        if old_chains.contains(chain) {
                            let i = choose|i: int|
                                0 <= i < old_chains.len() && old_chains[i] == chain;
                            assert(old_chains.push(own)[i] == chain);
                        }
                    }
                } else {
                    assert(after[p].chains[0] == own);
                }
            }
        }
        if exists|k: int| 0 <= k < n && #[trigger] chain_at(loaded, k, p, chain) {
            let k = choose|k: int| 0 <= k < n && #[trigger] chain_at(loaded, k, p, chain);
            assert(k < n - 1 ==> chain_at(loaded, k, p, chain));
        }
    }
}

/// A simulation that was started on the `j`th entry loads the object at `p` over a
/// chain.
pub open spec fn is_loaded_over(
    answers: Answers,
    root: Seq<char>,
    entries: Seq<ObjectModel>,
    j: int,
    p: Seq<char>,
    chain: Seq<Seq<char>>,
) -> bool {
    let list = load_list(answers, root, entries[j]);
    is_started(recorded(answers, root, entries, j), entries[j]) && exists|k: int|
        0 <= k < list.len() && #[trigger] chain_at(list, k, p, chain)
}

/// The chains of an object are exactly the chains over which the simulations load
/// it: every one is listed, and no other.
pub proof fn law_chains_are_complete(
    answers: Answers,
    root: Seq<char>,
    entries: Seq<ObjectModel>,
    n: int,
    p: Seq<char>,
    chain: Seq<Seq<char>>,
)
    requires
        0 <= n <= entries.len(),
    ensures
        lists(recorded(answers, root, entries, n), p, chain) <==> exists|j: int|
            0 <= j < n && #[trigger] is_loaded_over(answers, root, entries, j, p, chain),
    decreases n,
{
    if n > 0 {
        law_chains_are_complete(answers, root, entries, n - 1, p, chain);
        let st = recorded(answers, root, entries, n - 1);
        let e = entries[n - 1];
        let list = load_list(answers, root, e);
        if is_started(st, e) {
            lemma_loaded_chains(st, list, list.len() as int, p, chain);
        }
        assert(lists(recorded(answers, root, entries, n), p, chain) <==> lists(st, p, chain)
            || is_loaded_over(answers, root, entries, n - 1, p, chain));
        if exists|j: int|
            0 <= j < n && #[trigger] is_loaded_over(answers, root, entries, j, p, chain) {
            let j = choose|j: int|
                0 <= j < n && #[trigger] is_loaded_over(answers, root, entries, j, p, chain);
            assert(j < n - 1 ==> is_loaded_over(answers, root, entries, j, p, chain));
        }
    }
}

/// In a scan every executable comes before every library.
pub proof fn law_executables_come_first(objects: Seq<ObjectModel>, i: int, j: int)
    requires
        0 <= i < scan_order(objects).len(),
        0 <= j < scan_order(objects).len(),
        scan_order(objects)[i].elf.is_executable(),
        !scan_order(objects)[j].elf.is_executable(),
    ensures
        i < j,
{
    let exe = |o: ObjectModel| o.elf.is_executable();
    let lib = |o: ObjectModel| !o.elf.is_executable();
    let a = objects.filter(exe);
    let b = objects.filter(lib);
    broadcast use vstd::seq_lib::group_filter_ensures;

    if i >= a.len() {
        assert(scan_order(objects)[i] == b[i - a.len()]);
        assert(lib(b[i - a.len()]));
    }
    if j < a.len() {
        assert(scan_order(objects)[j] == a[j]);
        assert(exe(a[j]));
    }
}

/// A chain of objects leads from some entry to an object.
pub open spec fn leads_to(
    chain: Seq<Seq<char>>,
    entries: Seq<ObjectModel>,
    n: int,
    path: Seq<char>,
) -> bool {
    &&& chain.len() > 0
    &&& chain.last() == path
    &&& exists|j: int| 0 <= j < n && (#[trigger] entries[j]).rel == chain[0]
}

/// What holds of every state: an object is known by its own path, and every chain
/// leads from an entry to it.
pub open spec fn state_inv(st: StateModel, entries: Seq<ObjectModel>, n: int) -> bool {
    forall|p: Seq<char>| #[trigger] st.contains_key(p) ==> reached_inv(st[p], entries, n, p)
}

pub open spec fn reached_inv(
    r: ReachedModel,
    entries: Seq<ObjectModel>,
    n: int,
    p: Seq<char>,
) -> bool {
    &&& r.object.rel == p
    &&& r.chains.len() > 0
    &&& r.chains.no_duplicates()
    &&& forall|i: int| 0 <= i < r.chains.len() ==> leads_to(#[trigger] r.chains[i], entries, n, p)
}

proof fn lemma_chain(loaded: Seq<LoadedModel>, k: int)
    requires
        0 <= k < loaded.len(),
        loaded[0].loader is None,
        forall|m: int|
            0 < m < loaded.len() ==> (#[trigger] loaded[m]).loader is Some && 0
                <= loaded[m].loader->Some_0 < m,
    ensures
        load_chain(loaded, k).len() > 0,
        load_chain(loaded, k)[0] == loaded[0].object.rel,
        load_chain(loaded, k).last() == loaded[k].object.rel,
    decreases k,
{
    if k > 0 {
        lemma_chain(loaded, loaded[k].loader->Some_0);
    }
}

proof fn lemma_reached_inv(
    st: StateModel,
    loaded: Seq<LoadedModel>,
    k: int,
    entries: Seq<ObjectModel>,
    n: int,
)
    requires
        state_inv(st, entries, n),
        leads_to(load_chain(loaded, k), entries, n, loaded[k].object.rel),
    ensures
        state_inv(with_reached(st, loaded, k), entries, n),
{
    let rel = loaded[k].object.rel;
    let chain = load_chain(loaded, k);
    let next = with_reached(st, loaded, k);
    assert forall|p: Seq<char>| #[trigger] next.contains_key(p) implies reached_inv(
        next[p],
        entries,
        n,
        p,
    ) by {
        if p != rel {
            assert(st.contains_key(p));
        } else if st.contains_key(rel) {
            assert(reached_inv(st[rel], entries, n, rel));
            let chains = st[rel].chains;
            if !chains.contains(chain) {
                let more = chains.push(chain);
                assert forall|i: int| 0 <= i < more.len() implies leads_to(
                    #[trigger] more[i],
                    entries,
                    n,
                    rel,
                ) by {
                    if i < chains.len() {
                        assert(leads_to(chains[i], entries, n, rel));
                    }
                }
            }
        }
    }
}

proof fn lemma_loaded_inv(
    st: StateModel,
    loaded: Seq<LoadedModel>,
    m: int,
    entries: Seq<ObjectModel>,
    n: int,
)
    requires
        0 <= m <= loaded.len(),
        state_inv(st, entries, n),
        forall|k: int|
            0 <= k < loaded.len() ==> leads_to(
                load_chain(loaded, k),
                entries,
                n,
                (#[trigger] loaded[k]).object.rel,
            ),
    ensures
        state_inv(with_loaded(st, loaded, m), entries, n),
    decreases m,
{
    if m > 0 {
        lemma_loaded_inv(st, loaded, m - 1, entries, n);
        assert(leads_to(load_chain(loaded, m - 1), entries, n, loaded[m - 1].object.rel));
        lemma_reached_inv(with_loaded(st, loaded, m - 1), loaded, m - 1, entries, n);
    }
}

proof fn lemma_state_inv_grows(st: StateModel, entries: Seq<ObjectModel>, m: int, n: int)
    requires
        m <= n,
        state_inv(st, entries, m),
    ensures
        state_inv(st, entries, n),
{
    assert forall|p: Seq<char>| #[trigger] st.contains_key(p) implies reached_inv(
        st[p],
        entries,
        n,
        p,
    ) by {
        assert(reached_inv(st[p], entries, m, p));
        assert forall|i: int| 0 <= i < st[p].chains.len() implies leads_to(
            #[trigger] st[p].chains[i],
            entries,
            n,
            p,
        ) by {
            assert(leads_to(st[p].chains[i], entries, m, p));
        }
    }
}

/// Every chain of a report leads from an object that a simulation was started on
/// to the object in question, and none is listed twice.
pub proof fn law_chains_lead_to_their_object(
    answers: Answers,
    root: Seq<char>,
    entries: Seq<ObjectModel>,
    n: int,
)
    requires
        0 <= n <= entries.len(),
        settled(answers, root, entries, n),
    ensures
        state_inv(recorded(answers, root, entries, n), entries, n),
    decreases n,
{
    if n > 0 {
        law_chains_lead_to_their_object(answers, root, entries, n - 1);
        let st = recorded(answers, root, entries, n - 1);
        lemma_state_inv_grows(st, entries, n - 1, n);
        let e = entries[n - 1];
        if is_started(st, e) {
            let list = load_list(answers, root, e);
            law_load_lists_are_sound(answers, root, e, list);
            assert forall|k: int| 0 <= k < list.len() implies leads_to(
                load_chain(list, k),
                entries,
                n,
                (#[trigger] list[k]).object.rel,
            ) by {
                lemma_chain(list, k);
                assert(entries[n - 1].rel == load_chain(list, k)[0]);
            }
            lemma_loaded_inv(st, list, list.len() as int, entries, n);
        }
    }
}

proof fn lemma_all_findings(
    st: StateModel,
    paths: Seq<Seq<char>>,
    db: Seq<CapModel>,
    n: int,
    f: FindingModel,
)
    requires
        0 <= n <= paths.len(),
    ensures
        all_findings(st, paths, db, n).contains(f) <==> exists|i: int|
            0 <= i < n && object_findings(#[trigger] paths[i], st[paths[i]], db).contains(f),
    decreases n,
{
    if n > 0 {
        lemma_all_findings(st, paths, db, n - 1, f);
        let a = all_findings(st, paths, db, n - 1);
        let b = object_findings(paths[n - 1], st[paths[n - 1]], db);
        assert((a + b).contains(f) <==> a.contains(f) || b.contains(f)) by {
            if a.contains(f) {
                let i = choose|i: int| 0 <= i < a.len() && a[i] == f;
                assert((a + b)[i] == f);
            }
            if b.contains(f) {
                let i = choose|i: int| 0 <= i < b.len() && b[i] == f;
                assert((a + b)[a.len() + i] == f);
            }
            if (a + b).contains(f) {
                let i = choose|i: int| 0 <= i < (a + b).len() && (a + b)[i] == f;
                if i < a.len() {
                    assert(a[i] == f);
                } else {
                    assert(b[i - a.len()] == f);
                }
            }
        }
        if exists|i: int|
            0 <= i < n && object_findings(#[trigger] paths[i], st[paths[i]], db).contains(f) {
            let i = choose|i: int|
                0 <= i < n && object_findings(#[trigger] paths[i], st[paths[i]], db).contains(f);
            if i < n - 1 {
                assert(object_findings(paths[i], st[paths[i]], db).contains(f));
            }
        }
    }
}

proof fn lemma_stable_contains<A, W>(
    s: Seq<A>,
    r: Seq<A>,
    key: spec_fn(A) -> W,
    before: spec_fn(W, W) -> bool,
    x: A,
)
    requires
        is_stable_order(s, r, key, before),
    ensures
        r.contains(x) <==> s.contains(x),
{
    let w = key(x);
    let p = |a: A| key(a) == w;
    assert(keyed(r, key, w) == keyed(s, key, w));
    if r.contains(x) {
        let i = choose|i: int| 0 <= i < r.len() && r[i] == x;
        r.lemma_filter_contains(p, i);
        s.lemma_filter_contains_rev(p, x);
    }
    if s.contains(x) {
        let i = choose|i: int| 0 <= i < s.len() && s[i] == x;
        s.lemma_filter_contains(p, i);
        r.lemma_filter_contains_rev(p, x);
    }
}

/// A finding is credited to the object that holds the evidence, with the chains
/// that reach that object: neither to the executable that loads it nor to the
/// library that defines the symbol. Every piece of evidence has its finding.
pub proof fn law_findings_are_credited_to_the_holder(
    r: ReportModel,
    root: Seq<char>,
    st: StateModel,
    errors: Map<Seq<char>, Seq<char>>,
    db: Seq<CapModel>,
    f: FindingModel,
)
    requires
        is_report(r, root, st, errors, db),
        st.dom().finite(),
    ensures
        r.findings.contains(f) <==> exists|e: EvidenceModel|
            st.contains_key(f.object) && #[trigger] analysis(
                st[f.object].object.elf,
                db,
            ).evidence.contains(e) && f == finding(e, f.object, st[f.object].chains, db),
{
    let paths = in_order::<String>(st.dom());
    let n = paths.len() as int;
    lemma_in_order_ascending::<String>(st.dom());
    lemma_stable_contains(
        all_findings(st, paths, db, n),
        r.findings,
        |f: FindingModel| finding_key(db, f),
        |a: FindingKeyModel, b: FindingKeyModel| finding_before(a, b),
        f,
    );
    lemma_all_findings(st, paths, db, n, f);
    if all_findings(st, paths, db, n).contains(f) {
        let i = choose|i: int|
            0 <= i < n && object_findings(#[trigger] paths[i], st[paths[i]], db).contains(f);
        let p = paths[i];
        let all = object_findings(p, st[p], db);
        let k = choose|k: int| 0 <= k < all.len() && all[k] == f;
        let e = analysis(st[p].object.elf, db).evidence[k];
        assert(f == finding(e, p, st[p].chains, db));
        assert(paths.to_set().contains(p));
        assert(analysis(st[p].object.elf, db).evidence.contains(e));
    }
    if exists|e: EvidenceModel|
        st.contains_key(f.object) && #[trigger] analysis(
            st[f.object].object.elf,
            db,
        ).evidence.contains(e) && f == finding(e, f.object, st[f.object].chains, db) {
        let e = choose|e: EvidenceModel|
            st.contains_key(f.object) && #[trigger] analysis(
                st[f.object].object.elf,
                db,
            ).evidence.contains(e) && f == finding(e, f.object, st[f.object].chains, db);
        let p = f.object;
        assert(paths.to_set().contains(p));
        let i = choose|i: int| 0 <= i < paths.len() && paths[i] == p;
        let evidence = analysis(st[p].object.elf, db).evidence;
        let k = choose|k: int| 0 <= k < evidence.len() && evidence[k] == e;
        assert(object_findings(p, st[p], db)[k] == f);
        assert(object_findings(paths[i], st[paths[i]], db).contains(f));
    }
}

} // verus!
