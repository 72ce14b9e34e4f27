//! Laws of the comparison of two reports.

use crate::diff::{
    altered, change, comparison, evidence_change, evidence_for, found, gained, is_found,
    is_no_change, key_of, title_for, KeyModel,
};
use crate::order::{in_order, lemma_in_order_ascending, lemma_text_irreflexive};
use crate::scan::FindingModel;
use vstd::prelude::*;

verus! {

proof fn lemma_found_finite(a: Seq<FindingModel>)
    ensures
        found(a).finite(),
{
    let ids = a.map_values(|f: FindingModel| f.capability);
    assert forall|c: Seq<char>| found(a).contains(c) implies ids.to_set().contains(c) by {
        let k = choose|k: int| 0 <= k < a.len() && (#[trigger] a[k]).capability == c;
        assert(ids[k] == c);
    }
    vstd::set_lib::lemma_set_subset_finite(ids.to_set(), found(a));
}

/// A capability with findings is one with evidence.
proof fn lemma_found_has_evidence(a: Seq<FindingModel>, c: Seq<char>)
    ensures
        is_found(a, c) <==> evidence_for(a, c) != Set::<KeyModel>::empty(),
{
    if is_found(a, c) {
        let k = choose|k: int| 0 <= k < a.len() && (#[trigger] a[k]).capability == c;
        assert(evidence_for(a, c).contains(key_of(a[k])));
    } else {
        assert(evidence_for(a, c) =~= Set::<KeyModel>::empty());
    }
}

/// A capability is reported as added exactly when the second report has evidence
/// for it and the first has none, and once.
pub proof fn law_added_is_exact(a: Seq<FindingModel>, b: Seq<FindingModel>, c: Seq<char>)
    ensures
        (exists|i: int|
            0 <= i < comparison(a, b).added.len() && (#[trigger] comparison(
                a,
                b,
            ).added[i]).capability == c) <==> is_found(b, c) && !is_found(a, c),
        forall|i: int, j: int|
            0 <= i < j < comparison(a, b).added.len() ==> (#[trigger] comparison(
                a,
                b,
            ).added[i]).capability != (#[trigger] comparison(a, b).added[j]).capability,
{
    lemma_gained(a, b, c);
}

/// A capability is reported as removed exactly when the first report has evidence
/// for it and the second has none.
pub proof fn law_removed_is_exact(a: Seq<FindingModel>, b: Seq<FindingModel>, c: Seq<char>)
    ensures
        (exists|i: int|
            0 <= i < comparison(a, b).removed.len() && (#[trigger] comparison(
                a,
                b,
            ).removed[i]).capability == c) <==> is_found(a, c) && !is_found(b, c),
{
    lemma_gained(b, a, c);
    let all = comparison(a, b).removed;
    assert(all == gained(b, a));
    if exists|i: int| 0 <= i < gained(b, a).len() && (#[trigger] gained(b, a)[i]).capability == c {
        let i = choose|i: int|
            0 <= i < gained(b, a).len() && (#[trigger] gained(b, a)[i]).capability == c;
        assert(all[i].capability == c);
    }
}

proof fn lemma_gained(a: Seq<FindingModel>, b: Seq<FindingModel>, c: Seq<char>)
    ensures
        (exists|i: int|
            0 <= i < gained(a, b).len() && (#[trigger] gained(a, b)[i]).capability == c)
            <==> is_found(b, c) && !is_found(a, c),
        forall|i: int, j: int|
            0 <= i < j < gained(a, b).len() ==> (#[trigger] gained(a, b)[i]).capability != (
            #[trigger] gained(a, b)[j]).capability,
{
    let new = found(b).difference(found(a));
    lemma_found_finite(b);
    lemma_in_order_ascending::<String>(new);
    let ids = in_order::<String>(new);
    assert(new.contains(c) == ids.to_set().contains(c));
    if is_found(b, c) && !is_found(a, c) {
        assert(ids.contains(c));
        let i = choose|i: int| 0 <= i < ids.len() && ids[i] == c;
        assert(gained(a, b)[i].capability == c);
    }
    if exists|i: int| 0 <= i < gained(a, b).len() && (#[trigger] gained(a, b)[i]).capability == c {
        let i = choose|i: int|
            0 <= i < gained(a, b).len() && (#[trigger] gained(a, b)[i]).capability == c;
        assert(ids[i] == c);
        assert(ids.to_set().contains(c));
    }
    assert forall|i: int, j: int| 0 <= i < j < gained(a, b).len() implies (#[trigger] gained(
        a,
        b,
    )[i]).capability != (#[trigger] gained(a, b)[j]).capability by {
        lemma_text_irreflexive(ids[i]);
    }
}

/// A capability is reported as changed exactly when both reports have evidence for
/// it and the evidence differs.
pub proof fn law_changed_is_exact(a: Seq<FindingModel>, b: Seq<FindingModel>, c: Seq<char>)
    ensures
        (exists|i: int|
            0 <= i < comparison(a, b).changed.len() && (#[trigger] comparison(
                a,
                b,
            ).changed[i]).capability == c) <==> is_found(a, c) && is_found(b, c) && evidence_for(
            a,
            c,
        ) != evidence_for(b, c),
{
    let set = altered(a, b);
    lemma_found_finite(b);
    lemma_in_order_ascending::<String>(set);
    let ids = in_order::<String>(set);
    let all = comparison(a, b).changed;
    assert(set.contains(c) == ids.to_set().contains(c));
    if set.contains(c) {
        assert(ids.contains(c));
        let i = choose|i: int| 0 <= i < ids.len() && ids[i] == c;
        assert(all[i].capability == c);
    }
    if exists|i: int| 0 <= i < all.len() && (#[trigger] all[i]).capability == c {
        let i = choose|i: int| 0 <= i < all.len() && (#[trigger] all[i]).capability == c;
        assert(ids[i] == c);
        assert(ids.to_set().contains(c));
    }
}

/// There is no change exactly when both reports have the same evidence for every
/// capability.
pub proof fn law_no_change_means_same_evidence(a: Seq<FindingModel>, b: Seq<FindingModel>)
    ensures
        is_no_change(comparison(a, b)) <==> forall|c: Seq<char>| #[trigger]
            evidence_for(a, c) == evidence_for(b, c),
{
    let d = comparison(a, b);
    if is_no_change(d) {
        assert forall|c: Seq<char>| #[trigger] evidence_for(a, c) == evidence_for(b, c) by {
            law_added_is_exact(a, b, c);
            law_removed_is_exact(a, b, c);
            law_changed_is_exact(a, b, c);
            lemma_found_has_evidence(a, c);
            lemma_found_has_evidence(b, c);
        }
    }
    if forall|c: Seq<char>| #[trigger] evidence_for(a, c) == evidence_for(b, c) {
        if d.added.len() > 0 {
            let c = d.added[0].capability;
            law_added_is_exact(a, b, c);
            lemma_found_has_evidence(a, c);
            lemma_found_has_evidence(b, c);
            assert(evidence_for(a, c) == evidence_for(b, c));
        }
        if d.removed.len() > 0 {
            let c = d.removed[0].capability;
            law_removed_is_exact(a, b, c);
            lemma_found_has_evidence(a, c);
            lemma_found_has_evidence(b, c);
            assert(evidence_for(a, c) == evidence_for(b, c));
        }
        if d.changed.len() > 0 {
            let c = d.changed[0].capability;
            law_changed_is_exact(a, b, c);
            assert(evidence_for(a, c) == evidence_for(b, c));
        }
    }
}

/// A report does not differ from itself.
pub proof fn law_a_report_equals_itself(a: Seq<FindingModel>)
    ensures
        is_no_change(comparison(a, a)),
{
    law_no_change_means_same_evidence(a, a);
}

/// Compared the other way round, what was added is removed, what was removed is
/// added, and the evidence that changed changes back.
pub proof fn law_comparison_turns_round(a: Seq<FindingModel>, b: Seq<FindingModel>)
    ensures
        comparison(b, a).added == comparison(a, b).removed,
        comparison(b, a).removed == comparison(a, b).added,
        comparison(b, a).changed.len() == comparison(a, b).changed.len(),
        forall|i: int|
            0 <= i < comparison(a, b).changed.len() ==> {
                &&& (#[trigger] comparison(b, a).changed[i]).capability == comparison(
                    a,
                    b,
                ).changed[i].capability
                &&& comparison(b, a).changed[i].added == comparison(a, b).changed[i].removed
                &&& comparison(b, a).changed[i].removed == comparison(a, b).changed[i].added
            },
{
    assert(altered(b, a) =~= altered(a, b));
}

/// The same findings but for the load chains, and for the versions of the symbols.
pub open spec fn same_but_chains(a: Seq<FindingModel>, b: Seq<FindingModel>) -> bool {
    a.len() == b.len() && forall|i: int|
        0 <= i < a.len() ==> (#[trigger] b[i]).capability == a[i].capability && b[i].title
            == a[i].title && key_of(b[i]) == key_of(a[i])
}

/// Load chains make no difference: moving files around does not show up as a
/// change.
pub proof fn law_chains_do_not_count(
    a: Seq<FindingModel>,
    moved: Seq<FindingModel>,
    b: Seq<FindingModel>,
)
    requires
        same_but_chains(a, moved),
    ensures
        comparison(moved, b) == comparison(a, b),
        comparison(b, moved) == comparison(b, a),
{
    assert forall|c: Seq<char>|
        is_found(moved, c) == is_found(a, c) && #[trigger] evidence_for(moved, c) == evidence_for(
            a,
            c,
        ) && title_for(moved, c, 0) == title_for(a, c, 0) by {
        lemma_same_evidence(a, moved, c);
        lemma_same_title(a, moved, c, 0);
    }
    assert(found(moved) =~= found(a)) by {
        assert forall|c: Seq<char>| found(moved).contains(c) == found(a).contains(c) by {
            assert(evidence_for(moved, c) == evidence_for(a, c));
        }
    }
    assert forall|c: Seq<char>| #[trigger] change(moved, c) == change(a, c) by {
        assert(evidence_for(moved, c) == evidence_for(a, c));
    }
    assert(gained(b, moved) =~= gained(b, a));
    assert(gained(moved, b) =~= gained(a, b));
    assert(altered(moved, b) =~= altered(a, b)) by {
        assert forall|c: Seq<char>| altered(moved, b).contains(c) == altered(a, b).contains(c) by {
            assert(evidence_for(moved, c) == evidence_for(a, c));
        }
    }
    assert(altered(b, moved) =~= altered(b, a)) by {
        assert forall|c: Seq<char>| altered(b, moved).contains(c) == altered(b, a).contains(c) by {
            assert(evidence_for(moved, c) == evidence_for(a, c));
        }
    }
    assert forall|c: Seq<char>|
        #![trigger evidence_change(moved, b, c)]
        #![trigger evidence_change(b, moved, c)]
        evidence_change(moved, b, c) == evidence_change(a, b, c) && evidence_change(b, moved, c)
            == evidence_change(b, a, c) by {
        assert(evidence_for(moved, c) == evidence_for(a, c));
    }
    assert(comparison(moved, b).changed =~= comparison(a, b).changed);
    assert(comparison(b, moved).changed =~= comparison(b, a).changed);
}

proof fn lemma_same_evidence(a: Seq<FindingModel>, b: Seq<FindingModel>, c: Seq<char>)
    requires
        same_but_chains(a, b),
    ensures
        is_found(b, c) == is_found(a, c),
        evidence_for(b, c) == evidence_for(a, c),
{
    assert forall|e: KeyModel| evidence_for(b, c).contains(e) == evidence_for(a, c).contains(e) by {
        if evidence_for(a, c).contains(e) {
            let k = choose|k: int|
                0 <= k < a.len() && (#[trigger] a[k]).capability == c && key_of(a[k]) == e;
            assert(b[k].capability == c && key_of(b[k]) == e);
        }
        if evidence_for(b, c).contains(e) {
            let k = choose|k: int|
                0 <= k < b.len() && (#[trigger] b[k]).capability == c && key_of(b[k]) == e;
            assert(a[k].capability == c && key_of(a[k]) == e);
        }
    }
    assert(evidence_for(b, c) =~= evidence_for(a, c));
    lemma_found_has_evidence(a, c);
    lemma_found_has_evidence(b, c);
}

proof fn lemma_same_title(a: Seq<FindingModel>, b: Seq<FindingModel>, c: Seq<char>, i: int)
    requires
        0 <= i,
        same_but_chains(a, b),
    ensures
        title_for(b, c, i) == title_for(a, c, i),
    decreases a.len() - i,
{
    if i < a.len() {
        assert(b[i].capability == a[i].capability);
        lemma_same_title(a, b, c, i + 1);
    }
}

} // verus!
