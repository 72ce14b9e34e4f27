//! Laws of sorting, and of what is sorted.

use crate::analysis::{analysis, Confidence, Evidence};
use crate::analysis_laws::law_evidence_is_sorted_and_complete;
use crate::capdb::CapModel;
use crate::elf_model::ElfModel;
use crate::order::{
    ascending, in_order, lemma_in_order_ascending, lemma_text_irreflexive, lemma_text_transitive,
    text_before, Ordered,
};
use crate::paths::{components, list_before};
use crate::scan::{
    all_findings, finding, finding_before, finding_key, is_report, object_findings, FindingKeyModel,
    FindingModel, ReachedModel, ReportModel, StateModel,
};
use crate::sort::{is_stable_order, keyed};
use crate::walk::{in_path_order, with_entry, Kind, WalkModel};
use vstd::prelude::*;

verus! {

proof fn lemma_count_kept<A>(s: Seq<A>, p: spec_fn(A) -> bool, a: A)
    requires
        p(a),
    ensures
        s.filter(p).to_multiset().count(a) == s.to_multiset().count(a),
    decreases s.len(),
{
    broadcast use vstd::multiset::group_multiset_axioms;

    if s.len() == 0 {
        assert(s.filter(p) =~= s);
    } else {
        let rest = s.drop_last();
        assert(rest.push(s.last()) =~= s);
        lemma_count_kept(rest, p, a);
        rest.lemma_filter_push(s.last(), p);
        rest.to_multiset_ensures();
        rest.filter(p).to_multiset_ensures();
    }
}

/// Sorting loses nothing and adds nothing: each element stands in the result as often
/// as it stood before. Nothing stands behind an element whose key comes later, and
/// elements of one key keep their order.
pub proof fn law_sorting_keeps_everything<A, W>(
    s: Seq<A>,
    r: Seq<A>,
    key: spec_fn(A) -> W,
    before: spec_fn(W, W) -> bool,
    w: W,
    i: int,
    j: int,
)
    requires
        is_stable_order(s, r, key, before),
    ensures
        r.to_multiset() == s.to_multiset(),
        r.len() == s.len(),
        r.filter(|a: A| key(a) == w) == s.filter(|a: A| key(a) == w),
        0 <= i < j < r.len() ==> !before(key(r[j]), key(r[i])),
{
    assert forall|a: A| #[trigger] r.to_multiset().count(a) == s.to_multiset().count(a) by {
        let v = key(a);
        let p = |b: A| key(b) == v;
        assert(keyed(r, key, v) == keyed(s, key, v));
        lemma_count_kept(r, p, a);
        lemma_count_kept(s, p, a);
    }
    assert(r.to_multiset() =~= s.to_multiset());
    r.to_multiset_ensures();
    s.to_multiset_ensures();
    assert(keyed(r, key, w) == keyed(s, key, w));
}

/// One list of names comes before another where, at the first place in which they
/// differ, it has ended or has the smaller name.
pub open spec fn is_smaller(a: Seq<Seq<char>>, b: Seq<Seq<char>>, at: int) -> bool {
    &&& 0 <= at <= a.len()
    &&& at < b.len()
    &&& a.take(at) == b.take(at)
    &&& at < a.len() ==> a[at] != b[at] && text_before(a[at], b[at])
}

proof fn lemma_list_before(a: Seq<Seq<char>>, b: Seq<Seq<char>>, at: int)
    requires
        is_smaller(a, b, at),
    ensures
        list_before(a, b),
    decreases at,
{
    if at > 0 {
        assert(a.take(at)[0] == b.take(at)[0]);
        let c = a.drop_first();
        let d = b.drop_first();
        assert(c.take(at - 1) =~= a.take(at).drop_first());
        assert(d.take(at - 1) =~= b.take(at).drop_first());
        lemma_list_before(c, d, at - 1);
    }
}

/// A walk gives every file that it found, as often as it found it, and no file stands
/// behind one with a later path: component by component, so that what is in a
/// directory stands together, behind the directory's own name.
pub proof fn law_files_come_in_path_order(
    files: Seq<Seq<char>>,
    r: Seq<Seq<char>>,
    i: int,
    j: int,
    at: int,
)
    requires
        in_path_order(files, r),
    ensures
        r.to_multiset() == files.to_multiset(),
        0 <= i < j < r.len() ==> !is_smaller(components(r[j]), components(r[i]), at),
{
    let key = |p: Seq<char>| components(p);
    let before = |a: Seq<Seq<char>>, b: Seq<Seq<char>>| list_before(a, b);
    law_sorting_keeps_everything(files, r, key, before, Seq::empty(), i, j);
    if 0 <= i < j < r.len() && is_smaller(components(r[j]), components(r[i]), at) {
        lemma_list_before(components(r[j]), components(r[i]), at);
        assert(before(key(r[j]), key(r[i])));
    }
}

/// An entry of a directory lands in one list: a directory among those to list, a file
/// among the files, one that cannot be looked at among the errors. A link or a device
/// is passed over.
pub proof fn law_entries_are_kept_apart(w: WalkModel, path: Seq<char>, message: String)
    ensures
        with_entry(w, path, Kind::Directory) == (WalkModel {
            pending: w.pending + seq![path],
            files: w.files,
            errors: w.errors,
        }),
        with_entry(w, path, Kind::File) == (WalkModel {
            pending: w.pending,
            files: w.files + seq![path],
            errors: w.errors,
        }),
        with_entry(w, path, Kind::Other) == w,
        with_entry(w, path, Kind::Unknown(message)) == (WalkModel {
            pending: w.pending,
            files: w.files,
            errors: w.errors + seq![(path, message@)],
        }),
{
    assert(w.pending.push(path) =~= w.pending + seq![path]);
    assert(w.files.push(path) =~= w.files + seq![path]);
    assert(w.errors.push((path, message@)) =~= w.errors + seq![(path, message@)]);
}

proof fn lemma_ascending_once<T: Ordered>(s: Seq<T::V>)
    requires
        ascending::<T>(s),
    ensures
        s.no_duplicates(),
{
    assert forall|i: int, j: int| 0 <= i < s.len() && 0 <= j < s.len() && i != j implies s[i]
        != s[j] by {
        T::irreflexive(s[i]);
    }
}

proof fn lemma_object_findings_once(path: Seq<char>, r: ReachedModel, db: Seq<CapModel>)
    ensures
        object_findings(path, r, db).no_duplicates(),
{
    let evidence = analysis(r.object.elf, db).evidence;
    let list = object_findings(path, r, db);
    law_evidence_is_sorted_and_complete(r.object.elf, db);
    lemma_ascending_once::<Evidence>(evidence);
    assert forall|i: int, j: int| 0 <= i < list.len() && 0 <= j < list.len() && i != j implies list[i]
        != list[j] by {
        assert(evidence[i] != evidence[j]);
        assert(list[i] == finding(evidence[i], path, r.chains, db));
        assert(list[j] == finding(evidence[j], path, r.chains, db));
    }
}

proof fn lemma_all_findings_once(st: StateModel, paths: Seq<Seq<char>>, db: Seq<CapModel>, n: int)
    requires
        paths.no_duplicates(),
        0 <= n <= paths.len(),
    ensures
        all_findings(st, paths, db, n).no_duplicates(),
        forall|k: int|
            0 <= k < all_findings(st, paths, db, n).len() ==> exists|m: int|
                0 <= m < n && (#[trigger] all_findings(st, paths, db, n)[k]).object
                    == #[trigger] paths[m],
    decreases n,
{
    if n > 0 {
        lemma_all_findings_once(st, paths, db, n - 1);
        let rest = all_findings(st, paths, db, n - 1);
        let own = object_findings(paths[n - 1], st[paths[n - 1]], db);
        let all = all_findings(st, paths, db, n);
        lemma_object_findings_once(paths[n - 1], st[paths[n - 1]], db);
        assert forall|k: int| 0 <= k < own.len() implies (#[trigger] own[k]).object == paths[n
            - 1] by {}
        assert forall|k: int| 0 <= k < all.len() implies exists|m: int|
            0 <= m < n && (#[trigger] all[k]).object == #[trigger] paths[m] by {
            if k < rest.len() {
                assert(all[k] == rest[k]);
                let m = choose|m: int| 0 <= m < n - 1 && rest[k].object == #[trigger] paths[m];
                assert(all[k].object == paths[m]);
            } else {
                assert(all[k] == own[k - rest.len()]);
                assert(all[k].object == paths[n - 1]);
            }
        }
        assert forall|i: int, j: int| 0 <= i < rest.len() && 0 <= j < own.len() implies rest[i]
            != own[j] by {
            let m = choose|m: int| 0 <= m < n - 1 && rest[i].object == #[trigger] paths[m];
            assert(paths[m] != paths[n - 1]);
        }
        assert forall|i: int, j: int| 0 <= i < all.len() && 0 <= j < all.len() && i != j implies all[i]
            != all[j] by {
            if i < rest.len() {
                assert(all[i] == rest[i]);
            } else {
                assert(all[i] == own[i - rest.len()]);
            }
            if j < rest.len() {
                assert(all[j] == rest[j]);
            } else {
                assert(all[j] == own[j - rest.len()]);
            }
        }
    }
}

/// A report lists each finding once.
pub proof fn law_findings_are_listed_once(
    r: ReportModel,
    root: Seq<char>,
    st: StateModel,
    errors: Map<Seq<char>, Seq<char>>,
    db: Seq<CapModel>,
)
    requires
        is_report(r, root, st, errors, db),
        st.dom().finite(),
    ensures
        r.findings.no_duplicates(),
{
    let paths = in_order::<String>(st.dom());
    lemma_in_order_ascending::<String>(st.dom());
    lemma_ascending_once::<String>(paths);
    let all = all_findings(st, paths, db, paths.len() as int);
    lemma_all_findings_once(st, paths, db, paths.len() as int);
    let key = |f: FindingModel| finding_key(db, f);
    let before = |a: FindingKeyModel, b: FindingKeyModel| finding_before(a, b);
    law_sorting_keeps_everything(all, r.findings, key, before, arbitrary(), 0, 0);
    all.lemma_multiset_has_no_duplicates();
    r.findings.to_multiset_ensures();
    r.findings.lemma_multiset_has_no_duplicates_conv();
}

/// No version goes before any version, and versions go by their text.
pub open spec fn version_is_later(a: Option<Seq<char>>, b: Option<Seq<char>>) -> bool {
    a is Some && (b matches Some(y) ==> text_before(y, a->Some_0))
}

/// The evidence in an object comes in the order of the capabilities' ids, then of the
/// symbols, then of the versions, and last direct before indirect.
pub proof fn law_evidence_comes_in_order(elf: ElfModel, db: Seq<CapModel>, i: int, j: int)
    requires
        0 <= i < j < analysis(elf, db).evidence.len(),
    ensures
        ({
            let a = analysis(elf, db).evidence[i];
            let b = analysis(elf, db).evidence[j];
            &&& a != b
            &&& !text_before(b.capability, a.capability)
            &&& a.capability == b.capability ==> !text_before(b.symbol, a.symbol)
            &&& a.capability == b.capability && a.symbol == b.symbol ==> a.version == b.version
                || !version_is_later(a.version, b.version)
            &&& a.capability == b.capability && a.symbol == b.symbol && a.version == b.version
                ==> a.confidence == Confidence::Direct && b.confidence == Confidence::Indirect
        }),
{
    let list = analysis(elf, db).evidence;
    law_evidence_is_sorted_and_complete(elf, db);
    lemma_ascending_once::<Evidence>(list);
    let a = list[i];
    let b = list[j];
    assert(<Evidence as Ordered>::before(a, b));
    if text_before(a.capability, b.capability) {
        lemma_not_both(a.capability, b.capability);
    } else if text_before(a.symbol, b.symbol) {
        lemma_text_irreflexive(a.capability);
        lemma_not_both(a.symbol, b.symbol);
    } else {
        lemma_text_irreflexive(a.capability);
        lemma_text_irreflexive(a.symbol);
        if a.version is Some && b.version is Some && text_before(
            a.version->Some_0,
            b.version->Some_0,
        ) {
            lemma_not_both(a.version->Some_0, b.version->Some_0);
        }
    }
}

proof fn lemma_not_both(a: Seq<char>, b: Seq<char>)
    requires
        text_before(a, b),
    ensures
        !text_before(b, a),
        a != b,
{
    lemma_text_irreflexive(a);
    if text_before(b, a) {
        lemma_text_transitive(a, b, a);
    }
}

proof fn lemma_keyed<A, W>(
    s: Seq<A>,
    key: spec_fn(A) -> W,
    w: W,
    same: spec_fn(A) -> bool,
)
    requires
        forall|a: A| #[trigger] same(a) == (key(a) == w),
    ensures
        keyed(s, key, w) == s.filter(same),
{
    assert((|a: A| key(a) == w) =~= same);
}

proof fn lemma_filter_twice<A>(s: Seq<A>, p: spec_fn(A) -> bool, q: spec_fn(A) -> bool)
    requires
        forall|a: A| #[trigger] q(a) ==> p(a),
    ensures
        s.filter(p).filter(q) == s.filter(q),
    decreases s.len(),
{
    if s.len() == 0 {
        assert(s.filter(p) =~= s);
    } else {
        let rest = s.drop_last();
        assert(rest.push(s.last()) =~= s);
        lemma_filter_twice(rest, p, q);
        rest.lemma_filter_push(s.last(), p);
        rest.lemma_filter_push(s.last(), q);
        rest.filter(p).lemma_filter_push(s.last(), q);
    }
}

/// Of any two elements that a test picks, the first does not have the later version.
spec fn versions_ascend(s: Seq<FindingModel>, p: spec_fn(FindingModel) -> bool) -> bool {
    forall|i: int, j: int|
        0 <= i < j < s.len() && p(#[trigger] s[i]) && p(#[trigger] s[j]) ==> s[i].version
            == s[j].version || !version_is_later(s[i].version, s[j].version)
}

proof fn lemma_versions_filtered(s: Seq<FindingModel>, p: spec_fn(FindingModel) -> bool)
    ensures
        versions_ascend(s, p) <==> versions_ascend(s.filter(p), p),
        forall|a: FindingModel| #[trigger] s.filter(p).contains(a) <==> s.contains(a) && p(a),
    decreases s.len(),
{
    if s.len() == 0 {
        assert(s.filter(p) =~= s);
    } else {
        let rest = s.drop_last();
        let x = s.last();
        let kept = rest.filter(p);
        assert(rest.push(x) =~= s);
        lemma_versions_filtered(rest, p);
        rest.lemma_filter_push(x, p);
        assert forall|a: FindingModel| #[trigger] s.filter(p).contains(a) <==> s.contains(a)
            && p(a) by {
            if s.contains(a) && p(a) {
                let k = choose|k: int| 0 <= k < s.len() && s[k] == a;
                if k < rest.len() {
                    assert(rest[k] == a);
                    assert(kept.contains(a));
                    let m = choose|m: int| 0 <= m < kept.len() && kept[m] == a;
                    assert(s.filter(p)[m] == a);
                } else {
                    assert(s.filter(p).last() == a);
                }
            }
            if s.filter(p).contains(a) {
                let k = choose|k: int| 0 <= k < s.filter(p).len() && s.filter(p)[k] == a;
                if k < kept.len() {
                    assert(kept[k] == a);
                    assert(kept.contains(a));
                    assert(rest.contains(a));
                    let m = choose|m: int| 0 <= m < rest.len() && rest[m] == a;
                    assert(s[m] == a);
                } else {
                    assert(s[s.len() - 1] == a);
                }
            }
        }
        if versions_ascend(s, p) {
            assert forall|i: int, j: int|
                0 <= i < j < rest.len() && p(#[trigger] rest[i]) && p(
                    #[trigger] rest[j],
                ) implies rest[i].version == rest[j].version || !version_is_later(
                rest[i].version,
                rest[j].version,
            ) by {
                assert(rest[i] == s[i] && rest[j] == s[j]);
            }
            let all = s.filter(p);
            assert forall|i: int, j: int|
                0 <= i < j < all.len() && p(#[trigger] all[i]) && p(
                    #[trigger] all[j],
                ) implies all[i].version == all[j].version || !version_is_later(
                all[i].version,
                all[j].version,
            ) by {
                assert(all[i] == kept[i]);
                if j < kept.len() {
                    assert(all[j] == kept[j]);
                } else {
                    assert(kept.contains(all[i]));
                    assert(rest.contains(all[i]));
                    let m = choose|m: int| 0 <= m < rest.len() && rest[m] == all[i];
                    assert(s[m] == all[i] && s[s.len() - 1] == all[j]);
                }
            }
        }
        if versions_ascend(s.filter(p), p) {
            let all = s.filter(p);
            assert forall|i: int, j: int|
                0 <= i < j < kept.len() && p(#[trigger] kept[i]) && p(
                    #[trigger] kept[j],
                ) implies kept[i].version == kept[j].version || !version_is_later(
                kept[i].version,
                kept[j].version,
            ) by {
                assert(kept[i] == all[i] && kept[j] == all[j]);
            }
            assert forall|i: int, j: int|
                0 <= i < j < s.len() && p(#[trigger] s[i]) && p(
                    #[trigger] s[j],
                ) implies s[i].version == s[j].version || !version_is_later(
                s[i].version,
                s[j].version,
            ) by {
                assert(rest[i] == s[i]);
                if j < rest.len() {
                    assert(rest[j] == s[j]);
                } else {
                    assert(rest.contains(s[i]));
                    assert(kept.contains(s[i]));
                    let m = choose|m: int| 0 <= m < kept.len() && kept[m] == s[i];
                    assert(all[m] == s[i] && all[all.len() - 1] == s[j]);
                }
            }
        }
    }
}

/// The findings of one object for one symbol, capability and confidence.
spec fn is_alike(f: FindingModel) -> spec_fn(FindingModel) -> bool {
    |g: FindingModel|
        g.capability == f.capability && g.object == f.object && g.confidence == f.confidence
            && g.symbol == f.symbol
}

proof fn lemma_all_versions(
    st: StateModel,
    paths: Seq<Seq<char>>,
    db: Seq<CapModel>,
    n: int,
    f: FindingModel,
)
    requires
        paths.no_duplicates(),
        0 <= n <= paths.len(),
    ensures
        versions_ascend(all_findings(st, paths, db, n), is_alike(f)),
    decreases n,
{
    if n > 0 {
        let p = is_alike(f);
        let path = paths[n - 1];
        lemma_all_versions(st, paths, db, n - 1, f);
        lemma_all_findings_once(st, paths, db, n - 1);
        let rest = all_findings(st, paths, db, n - 1);
        let own = object_findings(path, st[path], db);
        let all = all_findings(st, paths, db, n);
        let elf = st[path].object.elf;
        assert forall|i: int, j: int|
            0 <= i < j < all.len() && p(#[trigger] all[i]) && p(
                #[trigger] all[j],
            ) implies all[i].version == all[j].version || !version_is_later(
            all[i].version,
            all[j].version,
        ) by {
            let k = rest.len() as int;
            if j < k {
                assert(all[i] == rest[i] && all[j] == rest[j]);
            } else if i < k {
                assert(all[i] == rest[i] && all[j] == own[j - k]);
                let m = choose|m: int| 0 <= m < n - 1 && rest[i].object == #[trigger] paths[m];
                assert(own[j - k].object == path);
            } else {
                assert(all[i] == own[i - k] && all[j] == own[j - k]);
                law_evidence_comes_in_order(elf, db, i - k, j - k);
            }
        }
    }
}

/// The findings of an object that differ in nothing but the version of their symbol
/// come in the order of the versions.
pub proof fn law_versions_come_in_order(
    r: ReportModel,
    root: Seq<char>,
    st: StateModel,
    errors: Map<Seq<char>, Seq<char>>,
    db: Seq<CapModel>,
    i: int,
    j: int,
)
    requires
        is_report(r, root, st, errors, db),
        st.dom().finite(),
        0 <= i < j < r.findings.len(),
        r.findings[i].capability == r.findings[j].capability,
        r.findings[i].object == r.findings[j].object,
        r.findings[i].confidence == r.findings[j].confidence,
        r.findings[i].symbol == r.findings[j].symbol,
    ensures
        !version_is_later(r.findings[i].version, r.findings[j].version) || r.findings[i].version
            == r.findings[j].version,
{
    let paths = in_order::<String>(st.dom());
    lemma_in_order_ascending::<String>(st.dom());
    lemma_ascending_once::<String>(paths);
    let all = all_findings(st, paths, db, paths.len() as int);
    let f = r.findings[i];
    let alike = is_alike(f);
    let key = |g: FindingModel| finding_key(db, g);
    let before = |a: FindingKeyModel, b: FindingKeyModel| finding_before(a, b);
    let w = finding_key(db, f);
    let same = |g: FindingModel| key(g) == w;
    law_sorting_keeps_everything(all, r.findings, key, before, w, 0, 0);
    lemma_all_versions(st, paths, db, paths.len() as int, f);
    lemma_versions_filtered(all, alike);
    lemma_versions_filtered(r.findings, alike);
    lemma_keyed(all, key, w, same);
    lemma_keyed(r.findings, key, w, same);
    assert(keyed(r.findings, key, w) == keyed(all, key, w));
    lemma_filter_twice(all, same, alike);
    lemma_filter_twice(r.findings, same, alike);
    assert(r.findings.filter(alike) == all.filter(alike));
    assert(alike(r.findings[i]) && alike(r.findings[j]));
}

} // verus!
