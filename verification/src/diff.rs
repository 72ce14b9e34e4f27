//! Compares the capabilities of two scans of the same application.

use crate::analysis::{confidence_before, relate_confidence, Confidence};
use crate::order::{
    ascending, holds, in_order, insert_unique, lemma_ascending_filter, lemma_in_order,
    lemma_text_connected, lemma_text_irreflexive, lemma_text_transitive, relate_text, text_before,
    views, Ordered, Relation,
};
use crate::scan::{FindingModel, Report};
use crate::textmap::TextMap;
use vstd::prelude::*;

verus! {

/// One piece of evidence, without the load chains, which change with every
/// reshuffle of a bundle's directory layout.
#[derive(Debug, Clone, PartialEq, Eq, PartialOrd, Ord)]
pub struct EvidenceKey {
    pub object: String,
    pub symbol: String,
    pub confidence: Confidence,
}

#[derive(Debug, Clone, PartialEq, Eq)]
pub struct CapabilityChange {
    pub capability: String,
    pub title: String,
    pub evidence: Vec<EvidenceKey>,
}

#[derive(Debug, Clone, PartialEq, Eq)]
pub struct EvidenceChange {
    pub capability: String,
    pub title: String,
    pub added: Vec<EvidenceKey>,
    pub removed: Vec<EvidenceKey>,
}

#[derive(Debug, Clone, PartialEq, Eq, Default)]
pub struct Diff {
    /// Capabilities with evidence in the new report and none in the old one.
    pub added: Vec<CapabilityChange>,
    /// Capabilities with evidence in the old report and none in the new one.
    pub removed: Vec<CapabilityChange>,
    /// Capabilities present in both whose evidence differs.
    pub changed: Vec<EvidenceChange>,
}

/// A piece of evidence with its words as text.
pub struct KeyModel {
    pub object: Seq<char>,
    pub symbol: Seq<char>,
    pub confidence: Confidence,
}

pub struct ChangeModel {
    pub capability: Seq<char>,
    pub title: Seq<char>,
    pub evidence: Seq<KeyModel>,
}

pub struct EvidenceChangeModel {
    pub capability: Seq<char>,
    pub title: Seq<char>,
    pub added: Seq<KeyModel>,
    pub removed: Seq<KeyModel>,
}

/// A comparison with its words as text.
pub struct DiffModel {
    pub added: Seq<ChangeModel>,
    pub removed: Seq<ChangeModel>,
    pub changed: Seq<EvidenceChangeModel>,
}

impl View for EvidenceKey {
    type V = KeyModel;

    open spec fn view(&self) -> KeyModel {
        KeyModel { object: self.object@, symbol: self.symbol@, confidence: self.confidence }
    }
}

impl View for CapabilityChange {
    type V = ChangeModel;

    open spec fn view(&self) -> ChangeModel {
        ChangeModel {
            capability: self.capability@,
            title: self.title@,
            evidence: views(self.evidence@),
        }
    }
}

impl View for EvidenceChange {
    type V = EvidenceChangeModel;

    open spec fn view(&self) -> EvidenceChangeModel {
        EvidenceChangeModel {
            capability: self.capability@,
            title: self.title@,
            added: views(self.added@),
            removed: views(self.removed@),
        }
    }
}

impl View for Diff {
    type V = DiffModel;

    open spec fn view(&self) -> DiffModel {
        DiffModel {
            added: views(self.added@),
            removed: views(self.removed@),
            changed: views(self.changed@),
        }
    }
}

/// By object, symbol and confidence, in this order.
pub open spec fn key_before(a: KeyModel, b: KeyModel) -> bool {
    text_before(a.object, b.object) || (a.object == b.object && (text_before(a.symbol, b.symbol)
        || (a.symbol == b.symbol && confidence_before(a.confidence, b.confidence))))
}

impl Ordered for EvidenceKey {
    open spec fn before(a: KeyModel, b: KeyModel) -> bool {
        key_before(a, b)
    }

    proof fn irreflexive(a: KeyModel) {
        lemma_text_irreflexive(a.object);
        lemma_text_irreflexive(a.symbol);
    }

    proof fn transitive(a: KeyModel, b: KeyModel, c: KeyModel) {
        if text_before(a.object, b.object) && text_before(b.object, c.object) {
            lemma_text_transitive(a.object, b.object, c.object);
        }
        if text_before(a.symbol, b.symbol) && text_before(b.symbol, c.symbol) {
            lemma_text_transitive(a.symbol, b.symbol, c.symbol);
        }
    }

    proof fn connected(a: KeyModel, b: KeyModel) {
        lemma_text_connected(a.object, b.object);
        lemma_text_connected(a.symbol, b.symbol);
    }

    fn relate(&self, other: &Self) -> Relation {
        match relate_text(self.object.as_str(), other.object.as_str()) {
            Relation::Same => match relate_text(self.symbol.as_str(), other.symbol.as_str()) {
                Relation::Same => relate_confidence(self.confidence, other.confidence),
                r => r,
            },
            r => r,
        }
    }
}

impl Diff {
    pub fn is_empty(&self) -> (r: bool)
        ensures
            r == is_no_change(self@),
    {
        self.added.len() == 0 && self.removed.len() == 0 && self.changed.len() == 0
    }
}

/// Nothing was added, removed or changed.
pub open spec fn is_no_change(d: DiffModel) -> bool {
    d.added.len() == 0 && d.removed.len() == 0 && d.changed.len() == 0
}

/// The evidence that a finding stands for.
pub open spec fn key_of(f: FindingModel) -> KeyModel {
    KeyModel { object: f.object, symbol: f.symbol, confidence: f.confidence }
}

/// A capability with some finding.
pub open spec fn is_found(findings: Seq<FindingModel>, c: Seq<char>) -> bool {
    exists|k: int| 0 <= k < findings.len() && (#[trigger] findings[k]).capability == c
}

/// The capabilities with some finding.
pub open spec fn found(findings: Seq<FindingModel>) -> Set<Seq<char>> {
    Set::new(|c: Seq<char>| is_found(findings, c))
}

/// The evidence for a capability.
pub open spec fn evidence_for(findings: Seq<FindingModel>, c: Seq<char>) -> Set<KeyModel> {
    Set::new(
        |e: KeyModel|
            exists|k: int|
                0 <= k < findings.len() && (#[trigger] findings[k]).capability == c && key_of(
                    findings[k],
                ) == e,
    )
}

/// The title that the first finding of a capability gives.
pub open spec fn title_for(findings: Seq<FindingModel>, c: Seq<char>, i: int) -> Seq<char>
    decreases findings.len() - i,
{
    if i >= findings.len() {
        Seq::empty()
    } else if findings[i].capability == c {
        findings[i].title
    } else {
        title_for(findings, c, i + 1)
    }
}

/// A capability of one report, with its evidence in order.
pub open spec fn change(findings: Seq<FindingModel>, c: Seq<char>) -> ChangeModel {
    ChangeModel {
        capability: c,
        title: title_for(findings, c, 0),
        evidence: in_order::<EvidenceKey>(evidence_for(findings, c)),
    }
}

/// What the second of two reports has more and less of for a capability.
pub open spec fn evidence_change(
    a: Seq<FindingModel>,
    b: Seq<FindingModel>,
    c: Seq<char>,
) -> EvidenceChangeModel {
    EvidenceChangeModel {
        capability: c,
        title: title_for(b, c, 0),
        added: in_order::<EvidenceKey>(evidence_for(b, c).difference(evidence_for(a, c))),
        removed: in_order::<EvidenceKey>(evidence_for(a, c).difference(evidence_for(b, c))),
    }
}

/// The capabilities of the second report that the first lacks.
pub open spec fn gained(a: Seq<FindingModel>, b: Seq<FindingModel>) -> Seq<ChangeModel> {
    in_order::<String>(found(b).difference(found(a))).map_values(|c: Seq<char>| change(b, c))
}

/// The capabilities of both reports whose evidence differs.
pub open spec fn altered(a: Seq<FindingModel>, b: Seq<FindingModel>) -> Set<Seq<char>> {
    found(b).filter(|c: Seq<char>| is_found(a, c) && evidence_for(a, c) != evidence_for(b, c))
}

/// What changed from one report to another.
pub open spec fn comparison(a: Seq<FindingModel>, b: Seq<FindingModel>) -> DiffModel {
    DiffModel {
        added: gained(a, b),
        removed: gained(b, a),
        changed: in_order::<String>(altered(a, b)).map_values(
            |c: Seq<char>| evidence_change(a, b, c),
        ),
    }
}

/// A capability's title and evidence.
struct Group {
    title: String,
    evidence: Vec<EvidenceKey>,
}

/// The findings of a report by capability.
struct Grouped {
    index: TextMap<usize>,
    groups: Vec<Group>,
}

impl Grouped {
    /// The groups hold what the findings say.
    spec fn groups_findings(&self, findings: Seq<FindingModel>) -> bool {
        &&& self.index.wf()
        &&& self.index@.dom() == found(findings)
        &&& forall|c: Seq<char>| #[trigger]
            self.index@.contains_key(c) ==> self.index@[c] < self.groups@.len() && group_fits(
                self.groups@[self.index@[c] as int],
                findings,
                c,
            )
        &&& forall|a: Seq<char>, b: Seq<char>|
            self.index@.contains_key(a) && self.index@.contains_key(b)
                && #[trigger] self.index@[a] == #[trigger] self.index@[b] ==> a == b
    }
}

/// A group holds what the findings say about a capability.
spec fn group_fits(g: Group, findings: Seq<FindingModel>, c: Seq<char>) -> bool {
    &&& g.title@ == title_for(findings, c, 0)
    &&& ascending::<EvidenceKey>(views(g.evidence@))
    &&& views(g.evidence@).to_set() == evidence_for(findings, c)
}

proof fn lemma_title_push(findings: Seq<FindingModel>, f: FindingModel, c: Seq<char>, i: int)
    requires
        0 <= i <= findings.len(),
    ensures
        (exists|k: int| i <= k < findings.len() && (#[trigger] findings[k]).capability == c)
            ==> title_for(findings.push(f), c, i) == title_for(findings, c, i),
        !(exists|k: int| i <= k < findings.len() && (#[trigger] findings[k]).capability == c)
            ==> title_for(findings.push(f), c, i) == (if f.capability == c {
            f.title
        } else {
            Seq::empty()
        }),
        !(exists|k: int| i <= k < findings.len() && (#[trigger] findings[k]).capability == c)
            ==> title_for(findings, c, i) == Seq::<char>::empty(),
    decreases findings.len() - i,
{
    if i < findings.len() {
        lemma_title_push(findings, f, c, i + 1);
        assert(findings.push(f)[i] == findings[i]);
    } else {
        assert(findings.push(f)[i] == f);
        assert(title_for(findings.push(f), c, i + 1) == Seq::<char>::empty());
    }
}

/// What one more finding adds to the evidence.
proof fn lemma_evidence_push(findings: Seq<FindingModel>, f: FindingModel, c: Seq<char>)
    ensures
        evidence_for(findings.push(f), c) == (if f.capability == c {
            evidence_for(findings, c).insert(key_of(f))
        } else {
            evidence_for(findings, c)
        }),
        is_found(findings.push(f), c) == (is_found(findings, c) || f.capability == c),
{
    let more = findings.push(f);
    let n = findings.len() as int;
    assert(more[n] == f);
    assert forall|k: int| 0 <= k < n implies #[trigger] more[k] == findings[k] by {}
    assert(is_found(more, c) == (is_found(findings, c) || f.capability == c)) by {
        if is_found(findings, c) {
            let k = choose|k: int| 0 <= k < n && (#[trigger] findings[k]).capability == c;
            assert(more[k].capability == c);
        }
    }
    assert forall|e: KeyModel| evidence_for(more, c).contains(e) == (evidence_for(
        findings,
        c,
    ).contains(e) || (f.capability == c && key_of(f) == e)) by {
        if evidence_for(findings, c).contains(e) {
            let k = choose|k: int|
                0 <= k < n && (#[trigger] findings[k]).capability == c && key_of(findings[k]) == e;
            assert(more[k].capability == c);
        }
        if f.capability == c && key_of(f) == e {
            assert(more[n].capability == c);
        }
    }
    if f.capability == c {
        assert(evidence_for(more, c) =~= evidence_for(findings, c).insert(key_of(f)));
    } else {
        assert(evidence_for(more, c) =~= evidence_for(findings, c));
    }
}

fn group(report: &Report) -> (r: Grouped)
    ensures
        r.groups_findings(report@.findings),
{
    let ghost all = report@.findings;
    let mut index: TextMap<usize> = TextMap::new();
    let mut groups: Vec<Group> = Vec::new();
    let mut i: usize = 0;
    assert(index@.dom() =~= found(all.take(0)));
    while i < report.findings.len()
        invariant
            i <= report.findings@.len(),
            all == report@.findings,
            (Grouped { index, groups }).groups_findings(all.take(i as int)),
        decreases report.findings@.len() - i,
    {
        let f = &report.findings[i];
        let ghost before = all.take(i as int);
        let ghost after = all.take(i + 1);
        let ghost m = f@;
        let ghost old_index = index@;
        let ghost old_groups = groups@;
        proof {
            assert(all[i as int] == m);
            assert(after =~= before.push(m));
            assert forall|c: Seq<char>| found(after).contains(c) == (found(before).contains(c)
                || m.capability == c) by {
                lemma_evidence_push(before, m, c);
            }
            assert(found(after) =~= found(before).insert(m.capability));
        }
        let key = EvidenceKey {
            object: f.object.clone(),
            symbol: f.symbol.clone(),
            confidence: f.confidence,
        };
        assert(key@ == key_of(m));
        let known: Option<usize> = match index.get(f.capability.as_str()) {
            Some(at) => Some(*at),
            None => None,
        };
        match known {
            Some(at) => {
                assert(group_fits(old_groups[at as int], before, m.capability));
                insert_unique(&mut groups[at].evidence, key);
                assert(old_index.dom() =~= found(after));
            },
            None => {
                let mut evidence: Vec<EvidenceKey> = Vec::new();
                assert(views(evidence@).to_set() =~= evidence_for(before, m.capability)) by {
                    assert(!found(before).contains(m.capability));
                }
                insert_unique(&mut evidence, key);
                let at: usize = groups.len();
                groups.push(Group { title: f.title.clone(), evidence });
                index.insert(f.capability.clone(), at);
                assert(index@.dom() =~= found(after));
            },
        }
        proof {
            assert forall|c: Seq<char>| #[trigger] index@.contains_key(c) implies index@[c]
                < groups@.len() && group_fits(groups@[index@[c] as int], after, c) by {
                lemma_evidence_push(before, m, c);
                lemma_title_push(before, m, c, 0);
                if c != m.capability {
                    assert(old_index.contains_key(c));
                    if known is Some {
                        assert(old_index[c] != old_index[m.capability]);
                    }
                    assert(is_found(before, c));
                } else if known is Some {
                    assert(old_index.contains_key(c));
                    assert(is_found(before, c));
                } else {
                    assert(!found(before).contains(c));
                }
            }
        }
        i = i + 1;
    }
    assert(all.take(all.len() as int) =~= all);
    Grouped { index, groups }
}

fn copied_key(e: &EvidenceKey) -> (r: EvidenceKey)
    ensures
        r@ == e@,
{
    EvidenceKey { object: e.object.clone(), symbol: e.symbol.clone(), confidence: e.confidence }
}

fn copied_keys(list: &Vec<EvidenceKey>) -> (r: Vec<EvidenceKey>)
    ensures
        views(r@) == views(list@),
{
    let mut out: Vec<EvidenceKey> = Vec::new();
    let mut i: usize = 0;
    while i < list.len()
        invariant
            i <= list@.len(),
            out@.len() == i,
            forall|j: int| 0 <= j < i ==> (#[trigger] out@[j])@ == list@[j]@,
        decreases list@.len() - i,
    {
        out.push(copied_key(&list[i]));
        i = i + 1;
    }
    assert(views(out@) =~= views(list@));
    out
}

/// The evidence of one list that another lacks, in order.
fn lacking(list: &Vec<EvidenceKey>, other: &Vec<EvidenceKey>) -> (r: Vec<EvidenceKey>)
    requires
        ascending::<EvidenceKey>(views(list@)),
        ascending::<EvidenceKey>(views(other@)),
    ensures
        views(r@) == in_order::<EvidenceKey>(
            views(list@).to_set().difference(views(other@).to_set()),
        ),
        r@.len() == 0 <==> views(list@).to_set().subset_of(views(other@).to_set()),
{
    let ghost all = views(list@);
    let ghost p = |e: KeyModel| !views(other@).contains(e);
    let mut out: Vec<EvidenceKey> = Vec::new();
    let mut i: usize = 0;
    assert(views(out@) =~= all.take(0).filter(p));
    while i < list.len()
        invariant
            i <= list@.len(),
            all == views(list@),
            ascending::<EvidenceKey>(views(other@)),
            p == (|e: KeyModel| !views(other@).contains(e)),
            views(out@) == all.take(i as int).filter(p),
        decreases list@.len() - i,
    {
        let e = &list[i];
        let ghost before = views(out@);
        proof {
            assert(all[i as int] == e@);
            assert(all.take(i + 1) =~= all.take(i as int).push(e@));
            all.take(i as int).lemma_filter_push(e@, p);
        }
        if !holds(other.as_slice(), e) {
            out.push(copied_key(e));
            assert(views(out@) =~= before.push(e@));
        }
        i = i + 1;
    }
    proof {
        assert(all.take(all.len() as int) =~= all);
        lemma_ascending_filter::<EvidenceKey>(all, p);
        let missing = all.to_set().difference(views(other@).to_set());
        assert(all.to_set().filter(p) =~= missing);
        assert(views(out@).to_set() == missing);
        if out@.len() == 0 {
            assert forall|e: KeyModel| all.to_set().contains(e) implies views(
                other@,
            ).to_set().contains(e) by {
                assert(!missing.contains(e));
            }
        } else {
            assert(missing.contains(views(out@)[0]));
        }
    }
    out
}

/// The capabilities of the second report that the first lacks.
fn gained_changes(
    first: &Grouped,
    second: &Grouped,
    Ghost(a): Ghost<Seq<FindingModel>>,
    Ghost(b): Ghost<Seq<FindingModel>>,
) -> (r: Vec<CapabilityChange>)
    requires
        first.groups_findings(a),
        second.groups_findings(b),
    ensures
        views(r@) == gained(a, b),
{
    let ghost keys = second.index.sorted_keys();
    let ghost p = |c: Seq<char>| !found(a).contains(c);
    let ghost make = |c: Seq<char>| change(b, c);
    let mut out: Vec<CapabilityChange> = Vec::new();
    let mut i: usize = 0;
    proof {
        second.index.lemma_sorted_keys();
    }
    assert(views(out@) =~= keys.take(0).filter(p).map_values(make));
    while i < second.index.len()
        invariant
            i <= keys.len(),
            keys == second.index.sorted_keys(),
            first.groups_findings(a),
            second.groups_findings(b),
            p == (|c: Seq<char>| !found(a).contains(c)),
            make == (|c: Seq<char>| change(b, c)),
            views(out@) == keys.take(i as int).filter(p).map_values(make),
        decreases keys.len() - i,
    {
        let (capability, at) = second.index.entry(i);
        let ghost c = capability@;
        let ghost before = views(out@);
        let ghost kept = keys.take(i as int).filter(p);
        proof {
            assert(keys.take(i + 1) =~= keys.take(i as int).push(c));
            keys.take(i as int).lemma_filter_push(c, p);
            assert(kept.push(c).map_values(make) =~= kept.map_values(make).push(make(c)));
        }
        if !first.index.has(capability.as_str()) {
            let g = &second.groups[*at];
            assert(group_fits(*g, b, c));
            proof {
                lemma_in_order::<EvidenceKey>(views(g.evidence@));
            }
            let entry = CapabilityChange {
                capability: capability.clone(),
                title: g.title.clone(),
                evidence: copied_keys(&g.evidence),
            };
            assert(entry@ == change(b, c));
            out.push(entry);
            assert(views(out@) =~= before.push(change(b, c)));
        }
        i = i + 1;
    }
    proof {
        assert(keys.take(keys.len() as int) =~= keys);
        lemma_ascending_filter::<String>(keys, p);
        assert(keys.to_set().filter(p) =~= found(b).difference(found(a)));
    }
    out
}

/// The capabilities of both reports whose evidence differs.
fn altered_changes(
    first: &Grouped,
    second: &Grouped,
    Ghost(a): Ghost<Seq<FindingModel>>,
    Ghost(b): Ghost<Seq<FindingModel>>,
) -> (r: Vec<EvidenceChange>)
    requires
        first.groups_findings(a),
        second.groups_findings(b),
    ensures
        views(r@) == comparison(a, b).changed,
{
    let ghost keys = second.index.sorted_keys();
    let ghost p = |c: Seq<char>| is_found(a, c) && evidence_for(a, c) != evidence_for(b, c);
    let ghost make = |c: Seq<char>| evidence_change(a, b, c);
    let mut out: Vec<EvidenceChange> = Vec::new();
    let mut i: usize = 0;
    proof {
        second.index.lemma_sorted_keys();
    }
    assert(views(out@) =~= keys.take(0).filter(p).map_values(make));
    while i < second.index.len()
        invariant
            i <= keys.len(),
            keys == second.index.sorted_keys(),
            first.groups_findings(a),
            second.groups_findings(b),
            p == (|c: Seq<char>| is_found(a, c) && evidence_for(a, c) != evidence_for(b, c)),
            make == (|c: Seq<char>| evidence_change(a, b, c)),
            views(out@) == keys.take(i as int).filter(p).map_values(make),
        decreases keys.len() - i,
    {
        let (capability, at) = second.index.entry(i);
        let ghost c = capability@;
        let ghost before = views(out@);
        let ghost kept = keys.take(i as int).filter(p);
        proof {
            assert(keys.take(i + 1) =~= keys.take(i as int).push(c));
            keys.take(i as int).lemma_filter_push(c, p);
            assert(kept.push(c).map_values(make) =~= kept.map_values(make).push(make(c)));
            assert(first.index@.contains_key(c) == is_found(a, c)) by {
                assert(first.index@.dom().contains(c) == found(a).contains(c));
            }
        }
        if let Some(other) = first.index.get(capability.as_str()) {
            let g = &second.groups[*at];
            let h = &first.groups[*other];
            assert(group_fits(*g, b, c));
            assert(group_fits(*h, a, c));
            let added = lacking(&g.evidence, &h.evidence);
            let removed = lacking(&h.evidence, &g.evidence);
            proof {
                if added@.len() == 0 && removed@.len() == 0 {
                    assert(evidence_for(a, c) =~= evidence_for(b, c));
                } else {
                    assert(evidence_for(a, c) != evidence_for(b, c));
                }
            }
            if added.len() > 0 || removed.len() > 0 {
                let entry = EvidenceChange {
                    capability: capability.clone(),
                    title: g.title.clone(),
                    added,
                    removed,
                };
                assert(entry@ == evidence_change(a, b, c));
                out.push(entry);
                assert(views(out@) =~= before.push(evidence_change(a, b, c)));
            }
        }
        i = i + 1;
    }
    proof {
        assert(keys.take(keys.len() as int) =~= keys);
        lemma_ascending_filter::<String>(keys, p);
        assert(keys.to_set().filter(p) =~= altered(a, b));
    }
    out
}

pub fn diff(first: &Report, second: &Report) -> (r: Diff)
    ensures
        r@ == comparison(first@.findings, second@.findings),
{
    let ghost a = first@.findings;
    let ghost b = second@.findings;
    let one = group(first);
    let two = group(second);
    Diff {
        added: gained_changes(&one, &two, Ghost(a), Ghost(b)),
        removed: gained_changes(&two, &one, Ghost(b), Ghost(a)),
        changed: altered_changes(&one, &two, Ghost(a), Ghost(b)),
    }
}

} // verus!
