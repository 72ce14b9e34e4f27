//! Laws of the text of reports and of the listing of a database.

use crate::analysis::confidence_text;
use crate::capdb::CapModel;
use crate::comparison_laws::is_about;
use crate::diff::found;
use crate::evidence_laws::is_blank;
use crate::output::{
    capability_line, capability_lines, column_width, db_as_text, dynamic_lines, error_lines,
    external_lines, finding_row, findings_table, findings_text, from_executable, head_row,
    is_rectangular, names_line, object_at, report_as_text, row_cells, row_line, section, summary,
    table_text, unresolved, words_line,
};
use crate::print_laws::{
    confidence_word, lemma_blocks, lemma_printed_add, lemma_printed_none, lemma_printed_one,
    lemma_single_rows, printed,
};
use crate::scan::{FileErrorModel, FindingModel, NeededModel, ObjectReportModel, ReportModel};
use crate::text::{concat, decimal, join, pad};
use crate::text_laws::lemma_trim_end;
use vstd::prelude::*;

verus! {

/// A line is another without the blanks at its end.
pub open spec fn is_cut_off(line: Seq<char>, whole: Seq<char>) -> bool {
    &&& line.len() <= whole.len()
    &&& line == whole.take(line.len() as int)
    &&& forall|j: int| line.len() <= j < whole.len() ==> is_blank(#[trigger] whole[j])
    &&& line.len() > 0 ==> !is_blank(line.last())
}

/// The cells of a row stand at the starts of the columns, with blanks between them and
/// nothing behind the last.
pub open spec fn is_laid_out(whole: Seq<char>, starts: Seq<int>, row: Seq<Seq<char>>) -> bool {
    &&& whole.len() == starts[row.len() - 1] + row.last().len()
    &&& forall|c: int|
        0 <= c < row.len() ==> starts[c] + row[c].len() <= whole.len() && whole.subrange(
            starts[c],
            starts[c] + row[c].len(),
        ) == #[trigger] row[c]
    &&& forall|c: int, j: int|
        0 <= c < row.len() - 1 && starts[c] + (#[trigger] row[c]).len() <= j < starts[c + 1]
            ==> #[trigger] whole[j] == ' '
}

/// Columns start two blanks behind the widest cell of the column before.
pub open spec fn is_next_start(rows: Seq<Seq<Seq<char>>>, starts: Seq<int>, c: int) -> bool {
    &&& forall|i: int|
        0 <= i < rows.len() ==> starts[c] + (#[trigger] rows[i])[c].len() + 2 <= starts[c + 1]
    &&& exists|i: int|
        0 <= i < rows.len() && starts[c] + (#[trigger] rows[i])[c].len() + 2 == starts[c + 1]
}

/// A line shows the cells of a row at the starts of the columns.
pub open spec fn is_shown(line: Seq<char>, starts: Seq<int>, row: Seq<Seq<char>>) -> bool {
    exists|whole: Seq<char>| #[trigger]
        is_laid_out(whole, starts, row) && is_cut_off(line, whole)
}

/// Lines that show rows of cells in aligned columns.
pub open spec fn is_table(
    lines: Seq<Seq<char>>,
    starts: Seq<int>,
    rows: Seq<Seq<Seq<char>>>,
) -> bool {
    &&& lines.len() == rows.len()
    &&& starts.len() == rows[0].len()
    &&& starts[0] == 0
    &&& forall|c: int| 0 <= c < starts.len() - 1 ==> #[trigger] is_next_start(rows, starts, c)
    &&& forall|i: int| 0 <= i < rows.len() ==> #[trigger] is_shown(lines[i], starts, rows[i])
}

spec fn start_of(rows: Seq<Seq<Seq<char>>>, c: int) -> int
    decreases c,
{
    if c <= 0 {
        0
    } else {
        start_of(rows, c - 1) + column_width(rows, c - 1, rows.len() as int) + 2
    }
}

proof fn lemma_width(rows: Seq<Seq<Seq<char>>>, c: int, n: int)
    requires
        0 < n <= rows.len(),
    ensures
        forall|i: int| 0 <= i < n ==> (#[trigger] rows[i])[c].len() <= column_width(rows, c, n),
        exists|i: int| 0 <= i < n && (#[trigger] rows[i])[c].len() == column_width(rows, c, n),
    decreases n,
{
    if n == 1 {
        assert(column_width(rows, c, 0) == 0);
        assert(rows[0][c].len() == column_width(rows, c, 1));
    } else {
        lemma_width(rows, c, n - 1);
        let k = choose|i: int|
            0 <= i < n - 1 && (#[trigger] rows[i])[c].len() == column_width(rows, c, n - 1);
        if rows[n - 1][c].len() > column_width(rows, c, n - 1) {
            assert(rows[n - 1][c].len() == column_width(rows, c, n));
        } else {
            assert(rows[k][c].len() == column_width(rows, c, n));
        }
    }
}

/// The first `n` cells of a row stand where they should.
spec fn cells_stand(
    rows: Seq<Seq<Seq<char>>>,
    row: Seq<Seq<char>>,
    text: Seq<char>,
    n: int,
) -> bool {
    &&& forall|c: int|
        0 <= c < n ==> start_of(rows, c) + row[c].len() <= text.len() && 0 <= start_of(rows, c)
            && text.subrange(start_of(rows, c), start_of(rows, c) + row[c].len())
            == #[trigger] row[c]
    &&& forall|c: int, j: int|
        0 <= c < n && c < row.len() - 1 && start_of(rows, c) + (#[trigger] row[c]).len() <= j
            < start_of(rows, c + 1) ==> #[trigger] text[j] == ' '
}

proof fn lemma_cells(rows: Seq<Seq<Seq<char>>>, k: int, n: int)
    requires
        0 <= k < rows.len(),
        0 <= n < rows[k].len(),
    ensures
        row_cells(rows, rows[k], n).len() == start_of(rows, n),
        cells_stand(rows, rows[k], row_cells(rows, rows[k], n), n),
        start_of(rows, n) >= 0,
    decreases n,
{
    let row = rows[k];
    if n > 0 {
        reveal_strlit("  ");
        lemma_cells(rows, k, n - 1);
        let before = row_cells(rows, row, n - 1);
        let after = row_cells(rows, row, n);
        let w = column_width(rows, n - 1, rows.len() as int);
        lemma_width(rows, n - 1, rows.len() as int);
        assert(row[n - 1].len() <= w);
        assert(after == before + pad(row[n - 1], w) + "  "@);
        let a = start_of(rows, n - 1);
        assert forall|c: int| 0 <= c < n implies start_of(rows, c) + row[c].len() <= after.len()
            && 0 <= start_of(rows, c) && after.subrange(
            start_of(rows, c),
            start_of(rows, c) + row[c].len(),
        ) == #[trigger] row[c] by {
            if c < n - 1 {
                assert(before.subrange(start_of(rows, c), start_of(rows, c) + row[c].len())
                    == row[c]);
                assert(after.subrange(start_of(rows, c), start_of(rows, c) + row[c].len())
                    =~= before.subrange(start_of(rows, c), start_of(rows, c) + row[c].len()));
            } else {
                assert(after.subrange(a, a + row[c].len()) =~= row[c]);
            }
        }
        assert forall|c: int, j: int|
            0 <= c < n && c < row.len() - 1 && start_of(rows, c) + (#[trigger] row[c]).len() <= j
                < start_of(rows, c + 1) implies #[trigger] after[j] == ' ' by {
            if c < n - 1 {
                lemma_start_grows(rows, c + 1, n - 1);
                assert(before[j] == ' ');
                assert(after[j] == before[j]);
            }
        }
    }
}

proof fn lemma_start_grows(rows: Seq<Seq<Seq<char>>>, a: int, b: int)
    requires
        0 <= a <= b,
    ensures
        start_of(rows, a) <= start_of(rows, b),
    decreases b,
{
    if a < b {
        lemma_start_grows(rows, a, b - 1);
    }
}

/// A table has one line for each row. In every line the cells of a column start at the
/// same place, two blanks behind the widest cell of the column before; there are no
/// blanks at the ends of lines.
pub proof fn law_tables_are_aligned(rows: Seq<Seq<Seq<char>>>) -> (r: (Seq<Seq<char>>, Seq<int>))
    requires
        is_rectangular(rows),
        rows.len() > 0,
        rows[0].len() > 0,
    ensures
        table_text(rows) == printed(r.0),
        is_table(r.0, r.1, rows),
{
    reveal_strlit("\n");
    let n = rows[0].len() as int;
    let starts = Seq::new(n as nat, |c: int| start_of(rows, c));
    let line = |row: Seq<Seq<char>>| crate::text::trim_end(row_cells(rows, row, row.len() as int));
    let text = |row: Seq<Seq<char>>| row_line(rows, row);
    let one = |row: Seq<Seq<char>>| seq![line(row)];
    assert forall|i: int| 0 <= i < rows.len() implies text(#[trigger] rows[i]) == printed(
        one(rows[i]),
    ) by {
        lemma_printed_one(line(rows[i]));
        assert(row_line(rows, rows[i]) =~= line(rows[i]).push('\n'));
    }
    lemma_blocks(rows, text, one);
    lemma_single_rows(rows, line);
    assert(rows.map_values(one) =~= rows.map_values(|row: Seq<Seq<char>>| seq![line(row)]));
    let lines = rows.map_values(line);
    assert forall|c: int| 0 <= c < starts.len() - 1 implies #[trigger] is_next_start(
        rows,
        starts,
        c,
    ) by {
        lemma_width(rows, c, rows.len() as int);
        let i = choose|i: int|
            0 <= i < rows.len() && (#[trigger] rows[i])[c].len() == column_width(
                rows,
                c,
                rows.len() as int,
            );
        assert(starts[c] + rows[i][c].len() + 2 == starts[c + 1]);
    }
    assert forall|i: int| 0 <= i < rows.len() implies #[trigger] is_shown(
        lines[i],
        starts,
        rows[i],
    ) by {
        let row = rows[i];
        let whole = row_cells(rows, row, n);
        lemma_cells(rows, i, n - 1);
        let before = row_cells(rows, row, n - 1);
        assert(whole == before + row[n - 1]);
        assert forall|c: int| 0 <= c < row.len() implies starts[c] + row[c].len() <= whole.len()
            && whole.subrange(starts[c], starts[c] + row[c].len()) == #[trigger] row[c] by {
            if c < n - 1 {
                assert(before.subrange(start_of(rows, c), start_of(rows, c) + row[c].len())
                    == row[c]);
                assert(whole.subrange(starts[c], starts[c] + row[c].len()) =~= before.subrange(
                    starts[c],
                    starts[c] + row[c].len(),
                ));
            } else {
                assert(whole.subrange(starts[c], starts[c] + row[c].len()) =~= row[c]);
            }
        }
        assert forall|c: int, j: int|
            0 <= c < row.len() - 1 && starts[c] + (#[trigger] row[c]).len() <= j
                < starts[c + 1] implies #[trigger] whole[j] == ' ' by {
            lemma_start_grows(rows, c + 1, n - 1);
            assert(before[j] == ' ');
            assert(whole[j] == before[j]);
        }
        assert(is_laid_out(whole, starts, row));
        let m = lemma_trim_end(whole);
        assert(lines[i] == whole.take(m));
        assert(is_cut_off(lines[i], whole));
    }
    (lines, starts)
}

/// The first object at a path is an executable.
pub open spec fn is_program(objects: Seq<ObjectReportModel>, path: Seq<char>) -> bool {
    exists|i: int|
        0 <= i < objects.len() && (#[trigger] objects[i]).path == path && objects[i].executable
            && forall|j: int| 0 <= j < i ==> (#[trigger] objects[j]).path != path
}

proof fn lemma_program(objects: Seq<ObjectReportModel>, path: Seq<char>, i: int)
    requires
        0 <= i <= objects.len(),
        forall|j: int| 0 <= j < i ==> (#[trigger] objects[j]).path != path,
    ensures
        (object_at(objects, path, i) matches Some(o) && o.executable) == is_program(objects, path),
    decreases objects.len() - i,
{
    if i < objects.len() {
        if objects[i].path != path {
            lemma_program(objects, path, i + 1);
        } else if is_program(objects, path) {
            let k = choose|k: int|
                0 <= k < objects.len() && (#[trigger] objects[k]).path == path
                    && objects[k].executable && forall|j: int|
                    0 <= j < k ==> (#[trigger] objects[j]).path != path;
            assert(k == i) by {
                if k < i {
                    assert(objects[k].path != path);
                } else if i < k {
                    assert(objects[i].path != path);
                }
            }
        }
    }
}

/// How a chain is shown: as such behind an arrow each, or in words where the object
/// stands alone in it.
pub open spec fn chain_word(chain: Seq<Seq<char>>, objects: Seq<ObjectReportModel>) -> Seq<char> {
    let program = chain.len() > 0 && is_program(objects, chain[0]);
    if chain.len() == 1 {
        if program {
            "(executable)"@
        } else {
            "(not linked from any executable)"@
        }
    } else if program {
        join(chain, " -> "@)
    } else {
        join(chain, " -> "@) + " (no executable)"@
    }
}

/// The last cell of a finding: its first chain, and how many more there are.
pub open spec fn chains_word(f: FindingModel, objects: Seq<ObjectReportModel>) -> Seq<char> {
    if f.reached_via.len() == 0 {
        Seq::empty()
    } else if f.reached_via.len() == 1 {
        chain_word(f.reached_via[0], objects)
    } else {
        chain_word(f.reached_via[0], objects) + " (+"@ + decimal((f.reached_via.len() - 1) as nat)
            + " more)"@
    }
}

/// The cells of a finding.
pub open spec fn cells_of(f: FindingModel, objects: Seq<ObjectReportModel>) -> Seq<Seq<char>> {
    seq![
        f.capability,
        f.object,
        match f.version {
            Some(v) => f.symbol + "@"@ + v,
            None => f.symbol,
        },
        confidence_word(f.confidence),
        chains_word(f, objects),
    ]
}

proof fn lemma_cells_of(f: FindingModel, objects: Seq<ObjectReportModel>)
    ensures
        finding_row(f, objects) == cells_of(f, objects),
{
    if f.reached_via.len() > 0 {
        let chain = f.reached_via[0];
        if chain.len() > 0 {
            lemma_program(objects, chain[0], 0);
        }
        assert(from_executable(chain, objects) == (chain.len() > 0 && is_program(
            objects,
            chain[0],
        )));
    }
    assert(crate::output::via(f, objects) == chains_word(f, objects));
    assert(confidence_text(f.confidence)@ == confidence_word(f.confidence));
    assert(finding_row(f, objects) =~= cells_of(f, objects));
}

/// The rows of the table: the names of the columns, and one row for each finding.
pub open spec fn table_cells(r: ReportModel) -> Seq<Seq<Seq<char>>> {
    seq![seq!["CAPABILITY"@, "OBJECT"@, "SYMBOL"@, "CONFIDENCE"@, "REACHED VIA"@]]
        + r.findings.map_values(|f: FindingModel| cells_of(f, r.objects))
}

/// A line for a capability that was found.
pub open spec fn titled_row(c: CapModel) -> Seq<char> {
    "  "@ + c.id + Seq::new((if c.id.len() < 22 { 22 - c.id.len() } else { 0 }) as nat, |i: int| ' ')
        + " "@ + c.title
}

/// A line with a path and names.
pub open spec fn named_row(path: Seq<char>, names: Seq<Seq<char>>) -> Seq<char> {
    "  "@ + path + ": "@ + join(names, ", "@)
}

/// The needed names of an object that led to nothing in the bundle.
pub open spec fn missing_names(o: ObjectReportModel) -> Seq<Seq<char>> {
    o.needed.filter(|n: NeededModel| n.resolved is None).map_values(|n: NeededModel| n.name)
}

/// A heading behind an empty line, and lines; nothing at all without lines.
pub open spec fn headed(heading: Seq<char>, rows: Seq<Seq<char>>) -> Seq<Seq<char>> {
    if rows.len() == 0 {
        Seq::empty()
    } else {
        seq![Seq::<char>::empty(), heading] + rows
    }
}

/// The lines behind the findings of a report: library names next to `dlopen`, needed
/// names that are left to the system, and files that could not be loaded.
pub open spec fn closing_rows(r: ReportModel) -> Seq<Seq<char>> {
    headed(
        "Library names in objects that import dlopen/dlsym:"@,
        r.objects.filter(|o: ObjectReportModel| o.dlopen_candidates.len() > 0).map_values(
            |o: ObjectReportModel| named_row(o.path, o.dlopen_candidates),
        ),
    ) + headed(
        "DT_NEEDED not found in the bundle (left to the system):"@,
        r.objects.filter(|o: ObjectReportModel| missing_names(o).len() > 0).map_values(
            |o: ObjectReportModel| named_row(o.path, missing_names(o)),
        ),
    ) + headed(
        "Could not load:"@,
        r.errors.map_values(|e: FileErrorModel| "  "@ + e.path + ": "@ + e.message),
    )
}

/// The first line of a report: how many objects, executables, findings and
/// capabilities there are.
pub open spec fn summary_row(r: ReportModel) -> Seq<char> {
    "Scanned "@ + r.root + ": "@ + decimal(r.objects.len()) + " ELF objects ("@ + decimal(
        r.objects.filter(|o: ObjectReportModel| o.executable).len(),
    ) + " executable), "@ + decimal(r.findings.len()) + " findings in "@ + decimal(
        r.findings.map_values(|f: FindingModel| f.capability).to_set().len(),
    ) + " capabilities."@
}

proof fn lemma_section<A>(
    text: Seq<char>,
    heading: Seq<char>,
    list: Seq<A>,
    line: spec_fn(A) -> Seq<char>,
    row: spec_fn(A) -> Seq<char>,
)
    requires
        text == seq!['\n'] + heading.push('\n'),
        forall|i: int| 0 <= i < list.len() ==> line(#[trigger] list[i]) == row(list[i]).push('\n'),
    ensures
        section(text, list.map_values(line)) == printed(headed(heading, list.map_values(row))),
{
    let rows = list.map_values(row);
    if list.len() == 0 {
        lemma_printed_none();
    } else {
        let one = |a: A| seq![row(a)];
        assert forall|i: int| 0 <= i < list.len() implies line(#[trigger] list[i]) == printed(
            one(list[i]),
        ) by {
            lemma_printed_one(row(list[i]));
        }
        lemma_blocks(list, line, one);
        lemma_single_rows(list, row);
        assert(list.map_values(one) =~= list.map_values(|a: A| seq![row(a)]));
        let none = Seq::<char>::empty();
        lemma_printed_one(none);
        lemma_printed_one(heading);
        lemma_printed_add(seq![none], seq![heading]);
        assert(seq![none] + seq![heading] =~= seq![none, heading]);
        lemma_printed_add(seq![none, heading], rows);
        assert(text =~= none.push('\n') + heading.push('\n'));
    }
}

proof fn lemma_closing(r: ReportModel)
    ensures
        section("\nLibrary names in objects that import dlopen/dlsym:\n"@, dynamic_lines(r.objects))
            + section(
            "\nDT_NEEDED not found in the bundle (left to the system):\n"@,
            external_lines(r.objects),
        ) + section("\nCould not load:\n"@, error_lines(r.errors)) == printed(closing_rows(r)),
{
    reveal_strlit("\n");
    reveal_strlit("\nLibrary names in objects that import dlopen/dlsym:\n");
    reveal_strlit("Library names in objects that import dlopen/dlsym:");
    reveal_strlit("\nDT_NEEDED not found in the bundle (left to the system):\n");
    reveal_strlit("DT_NEEDED not found in the bundle (left to the system):");
    reveal_strlit("\nCould not load:\n");
    reveal_strlit("Could not load:");
    let h1 = "Library names in objects that import dlopen/dlsym:"@;
    let h2 = "DT_NEEDED not found in the bundle (left to the system):"@;
    let h3 = "Could not load:"@;
    let l1 = r.objects.filter(|o: ObjectReportModel| o.dlopen_candidates.len() > 0);
    let l2 = r.objects.filter(|o: ObjectReportModel| missing_names(o).len() > 0);
    assert forall|o: ObjectReportModel| #[trigger] missing_names(o) == unresolved(o) by {}
    assert((|o: ObjectReportModel| missing_names(o).len() > 0) =~= (|o: ObjectReportModel|
        unresolved(o).len() > 0));
    let t1 = |o: ObjectReportModel| names_line(o.path, o.dlopen_candidates);
    let r1 = |o: ObjectReportModel| named_row(o.path, o.dlopen_candidates);
    let t2 = |o: ObjectReportModel| names_line(o.path, unresolved(o));
    let r2 = |o: ObjectReportModel| named_row(o.path, missing_names(o));
    let t3 = |e: FileErrorModel| "  "@ + e.path + ": "@ + e.message + "\n"@;
    let r3 = |e: FileErrorModel| "  "@ + e.path + ": "@ + e.message;
    assert forall|i: int| 0 <= i < l1.len() implies t1(#[trigger] l1[i]) == r1(l1[i]).push(
        '\n',
    ) by {
        assert(t1(l1[i]) =~= r1(l1[i]).push('\n'));
    }
    assert forall|i: int| 0 <= i < l2.len() implies t2(#[trigger] l2[i]) == r2(l2[i]).push(
        '\n',
    ) by {
        assert(t2(l2[i]) =~= r2(l2[i]).push('\n'));
    }
    assert forall|i: int| 0 <= i < r.errors.len() implies t3(#[trigger] r.errors[i]) == r3(
        r.errors[i],
    ).push('\n') by {
        assert(t3(r.errors[i]) =~= r3(r.errors[i]).push('\n'));
    }
    assert("\nLibrary names in objects that import dlopen/dlsym:\n"@ =~= seq!['\n'] + h1.push(
        '\n',
    ));
    assert("\nDT_NEEDED not found in the bundle (left to the system):\n"@ =~= seq!['\n'] + h2.push(
        '\n',
    ));
    assert("\nCould not load:\n"@ =~= seq!['\n'] + h3.push('\n'));
    lemma_section("\nLibrary names in objects that import dlopen/dlsym:\n"@, h1, l1, t1, r1);
    lemma_section("\nDT_NEEDED not found in the bundle (left to the system):\n"@, h2, l2, t2, r2);
    lemma_section("\nCould not load:\n"@, h3, r.errors, t3, r3);
    let a = headed(h1, l1.map_values(r1));
    let b = headed(h2, l2.map_values(r2));
    let c = headed(h3, r.errors.map_values(r3));
    lemma_printed_add(a, b);
    lemma_printed_add(a + b, c);
}

proof fn lemma_capabilities(r: ReportModel, db: Seq<CapModel>)
    ensures
        concat(
            db.filter(|c: CapModel| found(r.findings).contains(c.id)).map_values(
                |c: CapModel| capability_line(c),
            ),
        ) == printed(
            db.filter(|c: CapModel| is_about(r.findings, c.id)).map_values(
                |c: CapModel| titled_row(c),
            ),
        ),
{
    reveal_strlit("\n");
    let a = |c: CapModel| found(r.findings).contains(c.id);
    let b = |c: CapModel| is_about(r.findings, c.id);
    assert forall|c: CapModel| #[trigger] a(c) == b(c) by {}
    assert(a =~= b);
    let list = db.filter(b);
    let line = |c: CapModel| capability_line(c);
    let row = |c: CapModel| titled_row(c);
    let one = |c: CapModel| seq![row(c)];
    assert forall|i: int| 0 <= i < list.len() implies line(#[trigger] list[i]) == printed(
        one(list[i]),
    ) by {
        lemma_printed_one(row(list[i]));
        assert(capability_line(list[i]) =~= row(list[i]).push('\n'));
    }
    lemma_blocks(list, line, one);
    lemma_single_rows(list, row);
    assert(list.map_values(one) =~= list.map_values(|c: CapModel| seq![row(c)]));
}

proof fn lemma_summary(r: ReportModel)
    ensures
        summary(r) == printed(seq![summary_row(r), Seq::<char>::empty()]),
{
    reveal_strlit(" capabilities.\n\n");
    reveal_strlit(" capabilities.");
    let none = Seq::<char>::empty();
    let ids = r.findings.map_values(|f: FindingModel| f.capability);
    assert forall|c: Seq<char>| found(r.findings).contains(c) == ids.to_set().contains(c) by {
        if found(r.findings).contains(c) {
            let k = choose|k: int|
                0 <= k < r.findings.len() && (#[trigger] r.findings[k]).capability == c;
            assert(ids[k] == c);
        }
        if ids.to_set().contains(c) {
            let k = choose|k: int| 0 <= k < ids.len() && ids[k] == c;
            assert(r.findings[k].capability == c);
        }
    }
    assert(found(r.findings) =~= ids.to_set());
    lemma_printed_one(summary_row(r));
    lemma_printed_one(none);
    lemma_printed_add(seq![summary_row(r)], seq![none]);
    assert(seq![summary_row(r)] + seq![none] =~= seq![summary_row(r), none]);
    let front = "Scanned "@ + r.root + ": "@ + decimal(r.objects.len()) + " ELF objects ("@
        + decimal(r.objects.filter(|o: ObjectReportModel| o.executable).len())
        + " executable), "@ + decimal(r.findings.len()) + " findings in "@ + decimal(
        ids.to_set().len(),
    );
    assert(summary(r) == front + " capabilities.\n\n"@);
    assert(summary_row(r) == front + " capabilities."@);
    assert(" capabilities.\n\n"@ =~= " capabilities."@ + seq!['\n', '\n']);
    assert(summary(r) =~= summary_row(r).push('\n') + none.push('\n'));
}

proof fn lemma_nothing_found()
    ensures
        "No imports or strings from the capability database were found.\n"@ == printed(
            seq!["No imports or strings from the capability database were found."@],
        ),
{
    reveal_strlit("No imports or strings from the capability database were found.\n");
    reveal_strlit("No imports or strings from the capability database were found.");
    let say = "No imports or strings from the capability database were found."@;
    lemma_printed_one(say);
    assert("No imports or strings from the capability database were found.\n"@ =~= say.push('\n'));
}

proof fn lemma_found_heading()
    ensures
        "\nCapabilities found:\n"@ == printed(seq![Seq::<char>::empty(), "Capabilities found:"@]),
{
    reveal_strlit("\nCapabilities found:\n");
    reveal_strlit("Capabilities found:");
    let none = Seq::<char>::empty();
    let head = "Capabilities found:"@;
    lemma_printed_one(none);
    lemma_printed_one(head);
    lemma_printed_add(seq![none], seq![head]);
    assert(seq![none] + seq![head] =~= seq![none, head]);
    assert("\nCapabilities found:\n"@ =~= none.push('\n') + head.push('\n'));
}

proof fn lemma_table(r: ReportModel) -> (t: (Seq<Seq<char>>, Seq<int>))
    ensures
        findings_table(r) == printed(t.0),
        is_table(t.0, t.1, table_cells(r)),
{
    let cells = table_cells(r);
    let old_cells = seq![head_row()] + r.findings.map_values(
        |f: FindingModel| finding_row(f, r.objects),
    );
    assert forall|i: int| 0 <= i < cells.len() implies cells[i] == old_cells[i] by {
        if i > 0 {
            lemma_cells_of(r.findings[i - 1], r.objects);
        }
    }
    assert(cells =~= old_cells);
    assert forall|i: int| 0 <= i < cells.len() implies (#[trigger] cells[i]).len()
        == cells[0].len() by {
        if i > 0 {
            assert(cells[i] == cells_of(r.findings[i - 1], r.objects));
        }
    }
    law_tables_are_aligned(cells)
}

/// The text of a report: a summary with an empty line; the findings as a table, one
/// line each, and the capabilities that were found, in the order of the database, or a
/// line that says that there are none; and what is to be said besides.
pub proof fn law_a_report_has_its_lines(r: ReportModel, db: Seq<CapModel>) -> (t: (
    Seq<Seq<char>>,
    Seq<int>,
))
    ensures
        r.findings.len() == 0 ==> report_as_text(r, db) == printed(
            seq![
                summary_row(r),
                Seq::<char>::empty(),
                "No imports or strings from the capability database were found."@,
            ] + closing_rows(r),
        ),
        r.findings.len() > 0 ==> is_table(t.0, t.1, table_cells(r)) && report_as_text(r, db)
            == printed(
            seq![summary_row(r), Seq::<char>::empty()] + t.0 + seq![
                Seq::<char>::empty(),
                "Capabilities found:"@,
            ] + db.filter(|c: CapModel| is_about(r.findings, c.id)).map_values(
                |c: CapModel| titled_row(c),
            ) + closing_rows(r),
        ),
{
    let none = Seq::<char>::empty();
    let top = seq![summary_row(r), none];
    let end = closing_rows(r);
    lemma_summary(r);
    lemma_closing(r);
    let whole = report_as_text(r, db);
    assert(whole =~= summary(r) + findings_text(r, db) + printed(end));
    if r.findings.len() == 0 {
        let say = "No imports or strings from the capability database were found."@;
        lemma_nothing_found();
        lemma_printed_add(top, seq![say]);
        lemma_printed_add(top + seq![say], end);
        assert(top + seq![say] =~= seq![summary_row(r), none, say]);
        (Seq::empty(), Seq::empty())
    } else {
        let t = lemma_table(r);
        let mid = seq![none, "Capabilities found:"@];
        lemma_found_heading();
        lemma_capabilities(r, db);
        let caps = db.filter(|c: CapModel| is_about(r.findings, c.id)).map_values(
            |c: CapModel| titled_row(c),
        );
        lemma_printed_add(top, t.0);
        lemma_printed_add(top + t.0, mid);
        lemma_printed_add(top + t.0 + mid, caps);
        lemma_printed_add(top + t.0 + mid + caps, end);
        assert(findings_text(r, db) == printed(t.0) + printed(mid) + printed(caps));
        assert(whole =~= printed(top) + printed(t.0) + printed(mid) + printed(caps) + printed(
            end,
        ));
        t
    }
}

/// The lines for a capability in the listing of a database.
pub open spec fn listing_rows(c: CapModel) -> Seq<Seq<char>> {
    seq![c.id, "  "@ + c.title] + (if c.symbols.len() == 0 {
        Seq::empty()
    } else {
        seq!["  symbols: "@ + join(c.symbols, " "@)]
    }) + (if c.strings.len() == 0 {
        Seq::empty()
    } else {
        seq!["  strings: "@ + join(c.strings, " "@)]
    }) + seq!["  why: "@ + c.rationale, Seq::<char>::empty()]
}

proof fn lemma_words_line(label: Seq<char>, list: Seq<Seq<char>>)
    ensures
        words_line(label, list) == printed(
            if list.len() == 0 {
                Seq::empty()
            } else {
                seq![label + join(list, " "@)]
            },
        ),
{
    reveal_strlit("\n");
    lemma_printed_none();
    lemma_printed_one(label + join(list, " "@));
    assert(list.len() > 0 ==> words_line(label, list) =~= (label + join(list, " "@)).push('\n'));
}

/// The listing of a database has, for every capability in order, its id, its title, its
/// symbols and strings where it has any, why it matters, and an empty line.
pub proof fn law_listings_show_every_capability(db: Seq<CapModel>)
    ensures
        db_as_text(db) == printed(db.map_values(|c: CapModel| listing_rows(c)).flatten()),
{
    reveal_strlit("\n");
    reveal_strlit("\n  ");
    reveal_strlit("  ");
    reveal_strlit("\n\n");
    let text = |c: CapModel| capability_lines(c);
    let rows = |c: CapModel| listing_rows(c);
    assert forall|i: int| 0 <= i < db.len() implies text(#[trigger] db[i]) == printed(
        rows(db[i]),
    ) by {
        let c = db[i];
        let none = Seq::<char>::empty();
        let title = "  "@ + c.title;
        let why = "  why: "@ + c.rationale;
        let a = seq![c.id, title];
        let s = if c.symbols.len() == 0 {
            Seq::empty()
        } else {
            seq!["  symbols: "@ + join(c.symbols, " "@)]
        };
        let t = if c.strings.len() == 0 {
            Seq::empty()
        } else {
            seq!["  strings: "@ + join(c.strings, " "@)]
        };
        let z = seq![why, none];
        lemma_printed_one(c.id);
        lemma_printed_one(title);
        lemma_printed_add(seq![c.id], seq![title]);
        assert(seq![c.id] + seq![title] =~= a);
        lemma_words_line("  symbols: "@, c.symbols);
        lemma_words_line("  strings: "@, c.strings);
        lemma_printed_one(why);
        lemma_printed_one(none);
        lemma_printed_add(seq![why], seq![none]);
        assert(seq![why] + seq![none] =~= z);
        lemma_printed_add(a, s);
        lemma_printed_add(a + s, t);
        lemma_printed_add(a + s + t, z);
        assert(c.id + "\n  "@ + c.title + "\n"@ =~= c.id.push('\n') + title.push('\n'));
        assert(capability_lines(c) =~= c.id.push('\n') + title.push('\n') + words_line(
            "  symbols: "@,
            c.symbols,
        ) + words_line("  strings: "@, c.strings) + why.push('\n') + none.push('\n'));
        assert(capability_lines(c) =~= printed(a) + printed(s) + printed(t) + printed(z));
    }
    lemma_blocks(db, text, rows);
}

} // verus!
