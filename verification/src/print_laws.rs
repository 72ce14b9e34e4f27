//! Laws of the text output: which lines there are, in what order, and what stands in
//! each.

use crate::analysis::{confidence_text, Confidence};
use crate::diff::{is_no_change, ChangeModel, DiffModel, EvidenceChangeModel, KeyModel};
use crate::output::{
    change_lines, diff_as_text, evidence_change_lines, evidence_line, evidence_lines,
};
use crate::text::concat;
use vstd::prelude::*;

verus! {

/// Lines with their line feeds, one after the other.
pub open spec fn printed(rows: Seq<Seq<char>>) -> Seq<char> {
    rows.map_values(|row: Seq<char>| row.push('\n')).flatten()
}

/// How many lines the first `i` of some blocks take.
pub open spec fn lines_before(sizes: Seq<int>, i: int) -> int
    decreases i,
{
    if i <= 0 {
        0
    } else {
        lines_before(sizes, i - 1) + sizes[i - 1]
    }
}

pub proof fn lemma_flatten_add<A>(a: Seq<Seq<A>>, b: Seq<Seq<A>>)
    ensures
        (a + b).flatten() == a.flatten() + b.flatten(),
    decreases a.len(),
{
    if a.len() == 0 {
        assert(a + b =~= b);
        assert(a.flatten() + b.flatten() =~= b.flatten());
    } else {
        assert((a + b).drop_first() =~= a.drop_first() + b);
        lemma_flatten_add(a.drop_first(), b);
        assert((a + b).flatten() =~= a.flatten() + b.flatten());
    }
}

pub proof fn lemma_flatten_one<A>(a: Seq<A>)
    ensures
        seq![a].flatten() == a,
{
    assert(seq![a].drop_first() =~= Seq::<Seq<A>>::empty());
    assert(seq![a].drop_first().flatten() =~= Seq::<A>::empty());
    assert(seq![a].flatten() =~= a);
}

pub proof fn lemma_printed_add(a: Seq<Seq<char>>, b: Seq<Seq<char>>)
    ensures
        printed(a + b) == printed(a) + printed(b),
{
    let f = |row: Seq<char>| row.push('\n');
    assert((a + b).map_values(f) =~= a.map_values(f) + b.map_values(f));
    lemma_flatten_add(a.map_values(f), b.map_values(f));
}

pub proof fn lemma_printed_one(row: Seq<char>)
    ensures
        printed(seq![row]) == row.push('\n'),
{
    let f = |row: Seq<char>| row.push('\n');
    assert(seq![row].map_values(f) =~= seq![row.push('\n')]);
    lemma_flatten_one(row.push('\n'));
}

pub proof fn lemma_printed_none()
    ensures
        printed(Seq::empty()) == Seq::<char>::empty(),
{
    let f = |row: Seq<char>| row.push('\n');
    assert(Seq::<Seq<char>>::empty().map_values(f) =~= Seq::<Seq<char>>::empty());
    assert(Seq::<Seq<char>>::empty().flatten() =~= Seq::<char>::empty());
}

/// Texts that are each some printed lines are together the lines of all.
pub proof fn lemma_blocks<A>(
    list: Seq<A>,
    text: spec_fn(A) -> Seq<char>,
    rows: spec_fn(A) -> Seq<Seq<char>>,
)
    requires
        forall|i: int| 0 <= i < list.len() ==> text(#[trigger] list[i]) == printed(rows(list[i])),
    ensures
        concat(list.map_values(text)) == printed(list.map_values(rows).flatten()),
    decreases list.len(),
{
    let t = list.map_values(text);
    let r = list.map_values(rows);
    if list.len() == 0 {
        assert(r.flatten() =~= Seq::<Seq<char>>::empty());
        lemma_printed_none();
    } else {
        let rest = list.drop_last();
        assert forall|i: int| 0 <= i < rest.len() implies text(#[trigger] rest[i]) == printed(
            rows(rest[i]),
        ) by {
            assert(rest[i] == list[i]);
        }
        lemma_blocks(rest, text, rows);
        assert(t.drop_last() =~= rest.map_values(text));
        assert(r =~= rest.map_values(rows) + seq![rows(list.last())]);
        lemma_flatten_add(rest.map_values(rows), seq![rows(list.last())]);
        lemma_flatten_one(rows(list.last()));
        lemma_printed_add(rest.map_values(rows).flatten(), rows(list.last()));
        assert(text(list[list.len() - 1]) == printed(rows(list.last())));
    }
}

/// Where the lines of the `i`th block stand.
pub proof fn lemma_block_at<A>(blocks: Seq<Seq<A>>, sizes: Seq<int>, i: int)
    requires
        blocks.len() == sizes.len(),
        forall|k: int| 0 <= k < blocks.len() ==> (#[trigger] blocks[k]).len() == sizes[k],
        0 <= i <= blocks.len(),
    ensures
        lines_before(sizes, i) == blocks.take(i).flatten().len(),
        blocks.flatten() == blocks.take(i).flatten() + blocks.skip(i).flatten(),
        i < blocks.len() ==> blocks.skip(i).flatten() == blocks[i] + blocks.skip(i + 1).flatten(),
    decreases i,
{
    assert(blocks =~= blocks.take(i) + blocks.skip(i));
    lemma_flatten_add(blocks.take(i), blocks.skip(i));
    if i < blocks.len() {
        assert(blocks.skip(i).drop_first() =~= blocks.skip(i + 1));
        assert(blocks.skip(i).first() == blocks[i]);
    }
    if i > 0 {
        lemma_block_at(blocks, sizes, i - 1);
        assert(blocks.take(i) =~= blocks.take(i - 1) + seq![blocks[i - 1]]);
        lemma_flatten_add(blocks.take(i - 1), seq![blocks[i - 1]]);
        lemma_flatten_one(blocks[i - 1]);
    } else {
        assert(blocks.take(0).flatten() =~= Seq::<A>::empty());
    }
}

/// The word for a confidence.
pub open spec fn confidence_word(c: Confidence) -> Seq<char> {
    if c == Confidence::Direct {
        "direct"@
    } else {
        "indirect"@
    }
}

/// A line that names a piece of evidence.
pub open spec fn names_evidence(row: Seq<char>, sign: Seq<char>, e: KeyModel) -> bool {
    row == "    "@ + sign + e.object + "  "@ + e.symbol + "  "@ + confidence_word(e.confidence)
}

/// From the line `at` on, the lines name these pieces of evidence, one each, in order.
pub open spec fn names_all(
    rows: Seq<Seq<char>>,
    at: int,
    sign: Seq<char>,
    list: Seq<KeyModel>,
) -> bool {
    forall|k: int|
        0 <= k < list.len() ==> names_evidence(#[trigger] rows[at + k], sign, list[k])
}

/// How many lines each capability of a list takes.
pub open spec fn change_sizes(list: Seq<ChangeModel>) -> Seq<int> {
    list.map_values(|c: ChangeModel| 1 + c.evidence.len() as int)
}

pub open spec fn altered_sizes(list: Seq<EvidenceChangeModel>) -> Seq<int> {
    list.map_values(|c: EvidenceChangeModel| 1 + c.added.len() as int + c.removed.len() as int)
}

/// The lines that a comparison takes for what was added, for what was removed and for
/// what was changed.
pub open spec fn added_lines(d: DiffModel) -> int {
    lines_before(change_sizes(d.added), d.added.len() as int)
}

pub open spec fn removed_lines(d: DiffModel) -> int {
    lines_before(change_sizes(d.removed), d.removed.len() as int)
}

pub open spec fn altered_lines(d: DiffModel) -> int {
    lines_before(altered_sizes(d.changed), d.changed.len() as int)
}

spec fn evidence_row(sign: Seq<char>, e: KeyModel) -> Seq<char> {
    "    "@ + sign + e.object + "  "@ + e.symbol + "  "@ + confidence_word(e.confidence)
}

spec fn evidence_rows(sign: Seq<char>, list: Seq<KeyModel>) -> Seq<Seq<char>> {
    list.map_values(|e: KeyModel| evidence_row(sign, e))
}

spec fn change_rows(sign: Seq<char>, c: ChangeModel) -> Seq<Seq<char>> {
    seq![sign + c.capability + "  "@ + c.title] + evidence_rows(""@, c.evidence)
}

spec fn altered_rows(c: EvidenceChangeModel) -> Seq<Seq<char>> {
    seq!["~ "@ + c.capability + "  evidence changed"@] + evidence_rows("+ "@, c.added)
        + evidence_rows("- "@, c.removed)
}

proof fn lemma_evidence_rows(sign: Seq<char>, list: Seq<KeyModel>)
    ensures
        evidence_lines(sign, list) == printed(evidence_rows(sign, list)),
{
    reveal_strlit("\n");
    let text = |e: KeyModel| evidence_line(sign, e);
    let line = |e: KeyModel| evidence_row(sign, e);
    let rows = |e: KeyModel| seq![line(e)];
    assert forall|i: int| 0 <= i < list.len() implies text(#[trigger] list[i]) == printed(
        rows(list[i]),
    ) by {
        let row = evidence_row(sign, list[i]);
        assert(confidence_text(list[i].confidence)@ == confidence_word(list[i].confidence));
        assert(evidence_line(sign, list[i]) =~= row.push('\n'));
        lemma_printed_one(row);
    }
    lemma_blocks(list, text, rows);
    lemma_single_rows(list, line);
    assert(list.map_values(rows) =~= list.map_values(|e: KeyModel| seq![line(e)]));
}

/// Blocks of one line each are the lines.
pub proof fn lemma_single_rows<A>(list: Seq<A>, row: spec_fn(A) -> Seq<char>)
    ensures
        list.map_values(|a: A| seq![row(a)]).flatten() == list.map_values(row),
    decreases list.len(),
{
    let one = |a: A| seq![row(a)];
    if list.len() == 0 {
        assert(list.map_values(one).flatten() =~= list.map_values(row));
    } else {
        let rest = list.drop_first();
        lemma_single_rows(rest, row);
        assert(list.map_values(one).drop_first() =~= rest.map_values(one));
        assert(list.map_values(row) =~= seq![row(list[0])] + rest.map_values(row));
    }
}

proof fn lemma_change_rows(sign: Seq<char>, c: ChangeModel)
    ensures
        change_lines(sign, c) == printed(change_rows(sign, c)),
{
    reveal_strlit("\n");
    let head = sign + c.capability + "  "@ + c.title;
    lemma_printed_one(head);
    lemma_evidence_rows(""@, c.evidence);
    lemma_printed_add(seq![head], evidence_rows(""@, c.evidence));
    assert(change_lines(sign, c) =~= head.push('\n') + evidence_lines(""@, c.evidence));
}

proof fn lemma_altered_rows(c: EvidenceChangeModel)
    ensures
        evidence_change_lines(c) == printed(altered_rows(c)),
{
    reveal_strlit("  evidence changed\n");
    reveal_strlit("  evidence changed");
    let head = "~ "@ + c.capability + "  evidence changed"@;
    let a = evidence_rows("+ "@, c.added);
    let b = evidence_rows("- "@, c.removed);
    lemma_printed_one(head);
    lemma_evidence_rows("+ "@, c.added);
    lemma_evidence_rows("- "@, c.removed);
    lemma_printed_add(seq![head], a);
    lemma_printed_add(seq![head] + a, b);
    assert("~ "@ + c.capability + "  evidence changed\n"@ =~= head.push('\n'));
}

proof fn lemma_changes_at(
    rows: Seq<Seq<char>>,
    at: int,
    sign: Seq<char>,
    list: Seq<ChangeModel>,
    tail: Seq<Seq<char>>,
)
    requires
        0 <= at <= rows.len(),
        rows.skip(at) == list.map_values(|c: ChangeModel| change_rows(sign, c)).flatten() + tail,
    ensures
        rows.skip(at + lines_before(change_sizes(list), list.len() as int)) == tail,
        rows.len() == at + lines_before(change_sizes(list), list.len() as int) + tail.len(),
        lines_before(change_sizes(list), list.len() as int) >= 0,
        forall|i: int|
            0 <= i < list.len() ==> {
                let l = at + lines_before(change_sizes(list), i);
                &&& rows[l] == sign + (#[trigger] list[i]).capability + "  "@ + list[i].title
                &&& names_all(rows, l + 1, ""@, list[i].evidence)
            },
{
    let f = |c: ChangeModel| change_rows(sign, c);
    let blocks = list.map_values(f);
    let sizes = change_sizes(list);
    let n = list.len() as int;
    lemma_block_at(blocks, sizes, n);
    assert(blocks.take(n) =~= blocks);
    assert(blocks.skip(n).flatten() =~= Seq::<Seq<char>>::empty());
    let total = lines_before(sizes, n);
    assert(total == blocks.flatten().len());
    let all = rows.skip(at);
    assert(rows.skip(at + total) =~= all.skip(total));
    assert(all.skip(total) =~= tail);
    assert forall|i: int| 0 <= i < list.len() implies {
        let l = at + lines_before(sizes, i);
        &&& rows[l] == sign + (#[trigger] list[i]).capability + "  "@ + list[i].title
        &&& names_all(rows, l + 1, ""@, list[i].evidence)
    } by {
        lemma_block_at(blocks, sizes, i);
        let b = lines_before(sizes, i);
        let before = blocks.take(i).flatten();
        let after = blocks.skip(i + 1).flatten();
        assert(all == (before + (blocks[i] + after)) + tail);
        assert forall|m: int| 0 <= m < blocks[i].len() implies rows[at + b + m]
            == #[trigger] blocks[i][m] by {
            assert(all[b + m] == rows[at + b + m]);
            assert((before + (blocks[i] + after))[b + m] == (blocks[i] + after)[m]);
        }
        let l = at + b;
        assert(blocks[i][0] == sign + list[i].capability + "  "@ + list[i].title);
        assert(rows[at + b + 0] == blocks[i][0]);
        assert forall|k: int| 0 <= k < list[i].evidence.len() implies names_evidence(
            #[trigger] rows[l + 1 + k],
            ""@,
            list[i].evidence[k],
        ) by {
            assert(blocks[i][k + 1] == evidence_row(""@, list[i].evidence[k]));
            assert(rows[at + b + (k + 1)] == blocks[i][k + 1]);
        }
    }
}

proof fn lemma_altered_at(rows: Seq<Seq<char>>, at: int, list: Seq<EvidenceChangeModel>)
    requires
        0 <= at <= rows.len(),
        rows.skip(at) == list.map_values(|c: EvidenceChangeModel| altered_rows(c)).flatten(),
    ensures
        rows.len() == at + lines_before(altered_sizes(list), list.len() as int),
        forall|i: int|
            0 <= i < list.len() ==> {
                let l = at + lines_before(altered_sizes(list), i);
                &&& rows[l] == "~ "@ + (#[trigger] list[i]).capability + "  evidence changed"@
                &&& names_all(rows, l + 1, "+ "@, list[i].added)
                &&& names_all(rows, l + 1 + list[i].added.len(), "- "@, list[i].removed)
            },
{
    let f = |c: EvidenceChangeModel| altered_rows(c);
    let blocks = list.map_values(f);
    let sizes = altered_sizes(list);
    let n = list.len() as int;
    lemma_block_at(blocks, sizes, n);
    assert(blocks.take(n) =~= blocks);
    let all = rows.skip(at);
    assert forall|i: int| 0 <= i < list.len() implies {
        let l = at + lines_before(sizes, i);
        &&& rows[l] == "~ "@ + (#[trigger] list[i]).capability + "  evidence changed"@
        &&& names_all(rows, l + 1, "+ "@, list[i].added)
        &&& names_all(rows, l + 1 + list[i].added.len(), "- "@, list[i].removed)
    } by {
        lemma_block_at(blocks, sizes, i);
        let b = lines_before(sizes, i);
        let before = blocks.take(i).flatten();
        let after = blocks.skip(i + 1).flatten();
        assert(all == before + (blocks[i] + after));
        assert forall|m: int| 0 <= m < blocks[i].len() implies rows[at + b + m]
            == #[trigger] blocks[i][m] by {
            assert(all[b + m] == rows[at + b + m]);
            assert((before + (blocks[i] + after))[b + m] == (blocks[i] + after)[m]);
        }
        let l = at + b;
        let n = list[i].added.len() as int;
        assert(blocks[i][0] == "~ "@ + list[i].capability + "  evidence changed"@);
        assert(rows[at + b + 0] == blocks[i][0]);
        assert forall|k: int| 0 <= k < list[i].added.len() implies names_evidence(
            #[trigger] rows[l + 1 + k],
            "+ "@,
            list[i].added[k],
        ) by {
            assert(blocks[i][k + 1] == evidence_row("+ "@, list[i].added[k]));
            assert(rows[at + b + (k + 1)] == blocks[i][k + 1]);
        }
        assert forall|k: int| 0 <= k < list[i].removed.len() implies names_evidence(
            #[trigger] rows[l + 1 + n + k],
            "- "@,
            list[i].removed[k],
        ) by {
            assert(blocks[i][n + k + 1] == evidence_row("- "@, list[i].removed[k]));
            assert(rows[at + b + (n + k + 1)] == blocks[i][n + k + 1]);
        }
    }
}

/// The text of a comparison has two lines at its head, and after them, for every
/// capability that was added, removed or changed, a line for the capability and one
/// line for each piece of its evidence, in order. Where nothing changed, one line says
/// so.
pub proof fn law_every_change_has_its_lines(d: DiffModel, first: Seq<char>, second: Seq<char>) -> (
    rows: Seq<Seq<char>>)
    ensures
        diff_as_text(d, first, second) == printed(rows),
        rows[0] == "Capability diff "@ + first + " -> "@ + second,
        rows[1] == Seq::<char>::empty(),
        d.added.len() + d.removed.len() + d.changed.len() == 0 ==> rows.len() == 3 && rows[2]
            == "No capability changes."@,
        d.added.len() + d.removed.len() + d.changed.len() > 0 ==> {
            let r = 2 + added_lines(d);
            let c = r + removed_lines(d);
            &&& rows.len() == c + altered_lines(d)
            &&& forall|i: int|
                0 <= i < d.added.len() ==> {
                    let l = 2 + lines_before(change_sizes(d.added), i);
                    &&& rows[l] == "+ "@ + (#[trigger] d.added[i]).capability + "  "@
                        + d.added[i].title
                    &&& names_all(rows, l + 1, ""@, d.added[i].evidence)
                }
            &&& forall|i: int|
                0 <= i < d.removed.len() ==> {
                    let l = r + lines_before(change_sizes(d.removed), i);
                    &&& rows[l] == "- "@ + (#[trigger] d.removed[i]).capability + "  "@
                        + d.removed[i].title
                    &&& names_all(rows, l + 1, ""@, d.removed[i].evidence)
                }
            &&& forall|i: int|
                0 <= i < d.changed.len() ==> {
                    let l = c + lines_before(altered_sizes(d.changed), i);
                    &&& rows[l] == "~ "@ + (#[trigger] d.changed[i]).capability
                        + "  evidence changed"@
                    &&& names_all(rows, l + 1, "+ "@, d.changed[i].added)
                    &&& names_all(rows, l + 1 + d.changed[i].added.len(), "- "@, d.changed[i].removed)
                }
        },
{
    reveal_strlit("\n\n");
    let head = "Capability diff "@ + first + " -> "@ + second;
    let none = Seq::<char>::empty();
    let top = seq![head, none];
    lemma_printed_one(head);
    lemma_printed_one(none);
    lemma_printed_add(seq![head], seq![none]);
    assert(top =~= seq![head] + seq![none]);
    assert(head + "\n\n"@ =~= head.push('\n') + none.push('\n'));
    if is_no_change(d) {
        reveal_strlit("No capability changes.\n");
        reveal_strlit("No capability changes.");
        let last = "No capability changes."@;
        lemma_printed_one(last);
        lemma_printed_add(top, seq![last]);
        assert("No capability changes.\n"@ =~= last.push('\n'));
        top + seq![last]
    } else {
        let fa = |c: ChangeModel| change_lines("+ "@, c);
        let ga = |c: ChangeModel| change_rows("+ "@, c);
        let fr = |c: ChangeModel| change_lines("- "@, c);
        let gr = |c: ChangeModel| change_rows("- "@, c);
        let fc = |c: EvidenceChangeModel| evidence_change_lines(c);
        let gc = |c: EvidenceChangeModel| altered_rows(c);
        assert forall|i: int| 0 <= i < d.added.len() implies fa(#[trigger] d.added[i]) == printed(
            ga(d.added[i]),
        ) by {
            lemma_change_rows("+ "@, d.added[i]);
        }
        assert forall|i: int| 0 <= i < d.removed.len() implies fr(#[trigger] d.removed[i])
            == printed(gr(d.removed[i])) by {
            lemma_change_rows("- "@, d.removed[i]);
        }
        assert forall|i: int| 0 <= i < d.changed.len() implies fc(#[trigger] d.changed[i])
            == printed(gc(d.changed[i])) by {
            lemma_altered_rows(d.changed[i]);
        }
        lemma_blocks(d.added, fa, ga);
        lemma_blocks(d.removed, fr, gr);
        lemma_blocks(d.changed, fc, gc);
        let a = d.added.map_values(ga).flatten();
        let b = d.removed.map_values(gr).flatten();
        let c = d.changed.map_values(gc).flatten();
        lemma_printed_add(a, b);
        lemma_printed_add(a + b, c);
        lemma_printed_add(top, a + b + c);
        let rows = top + (a + b + c);
        assert(rows.skip(2) =~= a + (b + c));
        lemma_changes_at(rows, 2, "+ "@, d.added, b + c);
        let r = 2 + added_lines(d);
        lemma_changes_at(rows, r, "- "@, d.removed, c);
        lemma_altered_at(rows, r + removed_lines(d), d.changed);
        rows
    }
}

} // verus!
