//! What a comparison says, in terms of the findings of the two reports.

use crate::analysis::Confidence;
use crate::diff::{
    altered, change, comparison, evidence_change, evidence_for, found, gained, is_found, key_of,
    title_for, ChangeModel, EvidenceKey, KeyModel,
};
use crate::order::{in_order, lemma_in_order_ascending, text_before};
use crate::scan::FindingModel;
use vstd::prelude::*;

verus! {

/// Some finding is about a capability.
pub open spec fn is_about(findings: Seq<FindingModel>, c: Seq<char>) -> bool {
    exists|k: int| 0 <= k < findings.len() && (#[trigger] findings[k]).capability == c
}

/// Some finding has a capability, an object, a symbol and a confidence.
pub open spec fn shows(findings: Seq<FindingModel>, c: Seq<char>, e: KeyModel) -> bool {
    exists|k: int|
        0 <= k < findings.len() && (#[trigger] findings[k]).capability == c && findings[k].object
            == e.object && findings[k].symbol == e.symbol && findings[k].confidence == e.confidence
}

/// The title of the first finding about a capability.
pub open spec fn is_first_title(
    findings: Seq<FindingModel>,
    c: Seq<char>,
    title: Seq<char>,
) -> bool {
    exists|k: int|
        0 <= k < findings.len() && (#[trigger] findings[k]).capability == c && findings[k].title
            == title && forall|j: int| 0 <= j < k ==> (#[trigger] findings[j]).capability != c
}

/// By object, by symbol, and direct before indirect; nothing twice.
pub open spec fn is_in_order(list: Seq<KeyModel>) -> bool {
    forall|i: int, j: int|
        0 <= i < j < list.len() ==> text_before(
            (#[trigger] list[i]).object,
            (#[trigger] list[j]).object,
        ) || (list[i].object == list[j].object && (text_before(list[i].symbol, list[j].symbol) || (
        list[i].symbol == list[j].symbol && list[i].confidence == Confidence::Direct
            && list[j].confidence == Confidence::Indirect)))
}

/// An entry says what a report has about its capability: the title, and all the
/// evidence.
pub open spec fn is_entry_of(c: ChangeModel, findings: Seq<FindingModel>) -> bool {
    &&& is_about(findings, c.capability)
    &&& is_first_title(findings, c.capability, c.title)
    &&& is_in_order(c.evidence)
    &&& forall|e: KeyModel| #[trigger]
        c.evidence.contains(e) <==> shows(findings, c.capability, e)
}

proof fn lemma_evidence(findings: Seq<FindingModel>, c: Seq<char>)
    ensures
        evidence_for(findings, c).finite(),
        forall|e: KeyModel| #[trigger]
            evidence_for(findings, c).contains(e) <==> shows(findings, c, e),
{
    let keys = findings.map_values(|f: FindingModel| key_of(f));
    assert forall|e: KeyModel| #[trigger] evidence_for(findings, c).contains(e) <==> shows(
        findings,
        c,
        e,
    ) by {
        if evidence_for(findings, c).contains(e) {
            let k = choose|k: int|
                0 <= k < findings.len() && (#[trigger] findings[k]).capability == c && key_of(
                    findings[k],
                ) == e;
            assert(findings[k].object == e.object);
        }
        if shows(findings, c, e) {
            let k = choose|k: int|
                0 <= k < findings.len() && (#[trigger] findings[k]).capability == c
                    && findings[k].object == e.object && findings[k].symbol == e.symbol
                    && findings[k].confidence == e.confidence;
            assert(key_of(findings[k]) == e);
        }
    }
    assert forall|e: KeyModel| evidence_for(findings, c).contains(e) implies keys.to_set().contains(
        e,
    ) by {
        let k = choose|k: int|
            0 <= k < findings.len() && (#[trigger] findings[k]).capability == c && key_of(
                findings[k],
            ) == e;
        assert(keys[k] == e);
    }
    vstd::set_lib::lemma_set_subset_finite(keys.to_set(), evidence_for(findings, c));
}

proof fn lemma_title_for(findings: Seq<FindingModel>, c: Seq<char>, i: int)
    requires
        0 <= i,
        exists|k: int| i <= k < findings.len() && (#[trigger] findings[k]).capability == c,
        forall|j: int| 0 <= j < i && j < findings.len() ==> (#[trigger] findings[j]).capability
            != c,
    ensures
        is_first_title(findings, c, title_for(findings, c, i)),
    decreases findings.len() - i,
{
    let k = choose|k: int| i <= k < findings.len() && (#[trigger] findings[k]).capability == c;
    if findings[i].capability == c {
        assert(findings[i].title == title_for(findings, c, i));
    } else {
        assert(i + 1 <= k);
        lemma_title_for(findings, c, i + 1);
    }
}

proof fn lemma_listed(s: Set<KeyModel>)
    requires
        s.finite(),
    ensures
        is_in_order(in_order::<EvidenceKey>(s)),
        forall|e: KeyModel| #[trigger] in_order::<EvidenceKey>(s).contains(e) <==> s.contains(e),
{
    lemma_in_order_ascending::<EvidenceKey>(s);
    let list = in_order::<EvidenceKey>(s);
    assert forall|e: KeyModel| #[trigger] list.contains(e) <==> s.contains(e) by {
        assert(list.to_set().contains(e) == s.contains(e));
    }
    assert forall|i: int, j: int| 0 <= i < j < list.len() implies text_before(
        (#[trigger] list[i]).object,
        (#[trigger] list[j]).object,
    ) || (list[i].object == list[j].object && (text_before(list[i].symbol, list[j].symbol) || (
    list[i].symbol == list[j].symbol && list[i].confidence == Confidence::Direct
        && list[j].confidence == Confidence::Indirect))) by {
        assert(crate::diff::key_before(list[i], list[j]));
    }
}

proof fn lemma_change(findings: Seq<FindingModel>, c: Seq<char>)
    requires
        is_about(findings, c),
    ensures
        is_entry_of(change(findings, c), findings),
        change(findings, c).capability == c,
{
    lemma_evidence(findings, c);
    lemma_listed(evidence_for(findings, c));
    let k = choose|k: int| 0 <= k < findings.len() && (#[trigger] findings[k]).capability == c;
    assert(0 <= k);
    lemma_title_for(findings, c, 0);
}

proof fn lemma_found(findings: Seq<FindingModel>)
    ensures
        found(findings).finite(),
        forall|c: Seq<char>| #[trigger] found(findings).contains(c) <==> is_about(findings, c),
{
    let ids = findings.map_values(|f: FindingModel| f.capability);
    assert forall|c: Seq<char>| found(findings).contains(c) implies ids.to_set().contains(c) by {
        let k = choose|k: int| 0 <= k < findings.len() && (#[trigger] findings[k]).capability == c;
        assert(ids[k] == c);
    }
    vstd::set_lib::lemma_set_subset_finite(ids.to_set(), found(findings));
}

/// The entries of a list are those of one report whose capability the other does not
/// have: each such capability once, in order, with all its evidence.
pub open spec fn is_exclusive(
    list: Seq<ChangeModel>,
    one: Seq<FindingModel>,
    other: Seq<FindingModel>,
) -> bool {
    &&& forall|i: int| 0 <= i < list.len() ==> is_entry_of(#[trigger] list[i], one)
    &&& forall|i: int, j: int|
        0 <= i < j < list.len() ==> text_before(
            (#[trigger] list[i]).capability,
            (#[trigger] list[j]).capability,
        )
    &&& forall|c: Seq<char>| #[trigger]
        is_about(one, c) && !is_about(other, c) <==> exists|i: int|
            0 <= i < list.len() && (#[trigger] list[i]).capability == c
}

proof fn lemma_gained(a: Seq<FindingModel>, b: Seq<FindingModel>)
    ensures
        is_exclusive(gained(a, b), b, a),
{
    let new = found(b).difference(found(a));
    lemma_found(a);
    lemma_found(b);
    lemma_in_order_ascending::<String>(new);
    let ids = in_order::<String>(new);
    let list = gained(a, b);
    assert forall|i: int| 0 <= i < list.len() implies is_entry_of(#[trigger] list[i], b)
        && list[i].capability == ids[i] && is_about(b, ids[i]) && !is_about(a, ids[i]) by {
        assert(ids.to_set().contains(ids[i]));
        assert(new.contains(ids[i]));
        assert(found(b).contains(ids[i]) && !found(a).contains(ids[i]));
        lemma_change(b, ids[i]);
    }
    assert forall|c: Seq<char>| #[trigger]
        is_about(b, c) && !is_about(a, c) <==> exists|i: int|
            0 <= i < list.len() && (#[trigger] list[i]).capability == c by {
        assert(found(b).contains(c) == is_about(b, c) && found(a).contains(c) == is_about(a, c));
        assert(ids.to_set().contains(c) == new.contains(c));
        if is_about(b, c) && !is_about(a, c) {
            let i = choose|i: int| 0 <= i < ids.len() && ids[i] == c;
            assert(list[i].capability == c);
        }
    }
}

/// What is added is what the second report has evidence for and the first has none;
/// what is removed is what the first has evidence for and the second has none.
pub proof fn law_additions_and_removals(a: Seq<FindingModel>, b: Seq<FindingModel>)
    ensures
        is_exclusive(comparison(a, b).added, b, a),
        is_exclusive(comparison(a, b).removed, a, b),
{
    lemma_gained(a, b);
    lemma_gained(b, a);
}

/// The evidence for a capability differs.
pub open spec fn differs(a: Seq<FindingModel>, b: Seq<FindingModel>, c: Seq<char>) -> bool {
    exists|e: KeyModel| #[trigger] shows(a, c, e) != shows(b, c, e)
}

/// What is changed is what both reports have evidence for, but not the same: with the
/// evidence that only the second has, and the evidence that only the first has.
pub proof fn law_changes(a: Seq<FindingModel>, b: Seq<FindingModel>)
    ensures
        forall|c: Seq<char>| #[trigger]
            differs(a, b, c) && is_about(a, c) && is_about(b, c) <==> exists|i: int|
                0 <= i < comparison(a, b).changed.len() && (#[trigger] comparison(
                    a,
                    b,
                ).changed[i]).capability == c,
        forall|i: int, j: int|
            0 <= i < j < comparison(a, b).changed.len() ==> text_before(
                (#[trigger] comparison(a, b).changed[i]).capability,
                (#[trigger] comparison(a, b).changed[j]).capability,
            ),
        forall|i: int|
            0 <= i < comparison(a, b).changed.len() ==> {
                let c = (#[trigger] comparison(a, b).changed[i]).capability;
                &&& is_first_title(b, c, comparison(a, b).changed[i].title)
                &&& is_in_order(comparison(a, b).changed[i].added)
                &&& is_in_order(comparison(a, b).changed[i].removed)
                &&& forall|e: KeyModel| #[trigger]
                    comparison(a, b).changed[i].added.contains(e) <==> shows(b, c, e) && !shows(
                        a,
                        c,
                        e,
                    )
                &&& forall|e: KeyModel| #[trigger]
                    comparison(a, b).changed[i].removed.contains(e) <==> shows(a, c, e) && !shows(
                        b,
                        c,
                        e,
                    )
            },
{
    let set = altered(a, b);
    lemma_found(a);
    lemma_found(b);
    lemma_in_order_ascending::<String>(set);
    let ids = in_order::<String>(set);
    let list = comparison(a, b).changed;
    assert forall|c: Seq<char>| #[trigger]
        differs(a, b, c) && is_about(a, c) && is_about(b, c) <==> set.contains(c) by {
        lemma_evidence(a, c);
        lemma_evidence(b, c);
        assert(found(b).contains(c) == is_about(b, c));
        if differs(a, b, c) {
            let e = choose|e: KeyModel| #[trigger] shows(a, c, e) != shows(b, c, e);
            assert(evidence_for(a, c).contains(e) != evidence_for(b, c).contains(e));
        } else {
            assert forall|e: KeyModel| #[trigger]
                evidence_for(a, c).contains(e) == evidence_for(b, c).contains(e) by {
                assert(shows(a, c, e) == shows(b, c, e));
            }
            assert(evidence_for(a, c) =~= evidence_for(b, c));
        }
    }
    assert forall|c: Seq<char>| #[trigger]
        differs(a, b, c) && is_about(a, c) && is_about(b, c) <==> exists|i: int|
            0 <= i < list.len() && (#[trigger] list[i]).capability == c by {
        assert(ids.to_set().contains(c) == set.contains(c));
        if set.contains(c) {
            let i = choose|i: int| 0 <= i < ids.len() && ids[i] == c;
            assert(list[i].capability == c);
        }
        if exists|i: int| 0 <= i < list.len() && (#[trigger] list[i]).capability == c {
            let i = choose|i: int| 0 <= i < list.len() && (#[trigger] list[i]).capability == c;
            assert(ids[i] == c);
        }
    }
    assert forall|i: int| 0 <= i < list.len() implies {
        let c = (#[trigger] list[i]).capability;
        &&& is_first_title(b, c, list[i].title)
        &&& is_in_order(list[i].added)
        &&& is_in_order(list[i].removed)
        &&& forall|e: KeyModel| #[trigger]
            list[i].added.contains(e) <==> shows(b, c, e) && !shows(a, c, e)
        &&& forall|e: KeyModel| #[trigger]
            list[i].removed.contains(e) <==> shows(a, c, e) && !shows(b, c, e)
    } by {
        let c = ids[i];
        assert(list[i] == evidence_change(a, b, c));
        assert(ids.to_set().contains(c));
        assert(set.contains(c));
        assert(is_found(b, c));
        lemma_evidence(a, c);
        lemma_evidence(b, c);
        lemma_listed(evidence_for(b, c).difference(evidence_for(a, c)));
        lemma_listed(evidence_for(a, c).difference(evidence_for(b, c)));
        let k = choose|k: int| 0 <= k < b.len() && (#[trigger] b[k]).capability == c;
        assert(0 <= k);
        lemma_title_for(b, c, 0);
    }
}

} // verus!
