//! Text and JSON rendering. JSON is written by hand; the structures are flat
//! enough that this stays readable.

use crate::analysis::confidence_text;
use crate::capdb::{CapDb, CapModel};
use crate::diff::{
    found, is_found, is_no_change, CapabilityChange, ChangeModel, Diff, DiffModel, EvidenceChange,
    EvidenceChangeModel, EvidenceKey, KeyModel,
};
use crate::elf_model::text_of;
use crate::order::{ascending, holds, insert_unique, lemma_text_irreflexive, views};
use crate::scan::{
    chain_texts, FileError, FileErrorModel, Finding, FindingModel, NeededModel, NeededReport,
    ObjectReport, ObjectReportModel, Report, ReportModel,
};
use crate::text::{
    chars_of, concat, decimal, decimal_of, digit, digit_of, join, joined, lemma_concat_push, owned,
    pad, push_chars, push_padded, same_text, texts, trim_end, trimmed_end,
};
use vstd::prelude::*;

verus! {

/// How a character is written inside a JSON string.
pub open spec fn json_char(c: char) -> Seq<char> {
    if c == '"' {
        "\\\""@
    } else if c == '\\' {
        "\\\\"@
    } else if c == '\n' {
        "\\n"@
    } else if c == '\r' {
        "\\r"@
    } else if c == '\t' {
        "\\t"@
    } else if (c as u32) < 0x20 {
        "\\u00"@.push(digit(c as nat / 16)).push(digit(c as nat % 16))
    } else {
        seq![c]
    }
}

/// The inside of a JSON string.
pub open spec fn json_chars(s: Seq<char>) -> Seq<char>
    decreases s.len(),
{
    if s.len() == 0 {
        Seq::empty()
    } else {
        json_chars(s.drop_last()) + json_char(s.last())
    }
}

/// A text as a JSON string.
pub open spec fn json_text(s: Seq<char>) -> Seq<char> {
    seq!['"'] + json_chars(s) + seq!['"']
}

/// A text that may be missing, as a JSON string or `null`.
pub open spec fn json_option(s: Option<Seq<char>>) -> Seq<char> {
    match s {
        Some(t) => json_text(t),
        None => "null"@,
    }
}

pub open spec fn json_bool(b: bool) -> Seq<char> {
    if b {
        "true"@
    } else {
        "false"@
    }
}

/// A JSON array of values that are written already.
pub open spec fn json_array(parts: Seq<Seq<char>>) -> Seq<char> {
    "["@ + join(parts, ","@) + "]"@
}

/// A JSON array of strings.
pub open spec fn json_texts(list: Seq<Seq<char>>) -> Seq<char> {
    json_array(list.map_values(|s: Seq<char>| json_text(s)))
}

fn push_json_char(out: &mut String, c: char)
    ensures
        final(out)@ == old(out)@ + json_char(c),
{
    if c == '"' {
        out.append("\\\"");
    } else if c == '\\' {
        out.append("\\\\");
    } else if c == '\n' {
        out.append("\\n");
    } else if c == '\r' {
        out.append("\\r");
    } else if c == '\t' {
        out.append("\\t");
    } else if (c as u32) < 0x20 {
        let code: u8 = (c as u32) as u8;
        out.append("\\u00");
        out.push(digit_of(code / 16));
        out.push(digit_of(code % 16));
        assert(out@ =~= old(out)@ + json_char(c));
    } else {
        out.push(c);
        assert(out@ =~= old(out)@ + json_char(c));
    }
}

pub fn json_string(s: &str) -> (r: String)
    ensures
        r@ == json_text(s@),
{
    let mut out = String::new();
    out.push('"');
    assert(out@ =~= seq!['"'] + json_chars(s@.take(0)));
    for c in it: s.chars()
        invariant
            it.seq() == s@,
            out@ == seq!['"'] + json_chars(s@.take(it.index() as int)),
    {
        let ghost i = it.index() as int;
        let ghost before = out@;
        assert(s@.take(i + 1).drop_last() =~= s@.take(i));
        push_json_char(&mut out, c);
        assert(out@ =~= seq!['"'] + json_chars(s@.take(i + 1)));
    }
    assert(s@.take(s@.len() as int) =~= s@);
    out.push('"');
    assert(out@ =~= json_text(s@));
    out
}

fn json_opt(s: &Option<String>) -> (r: String)
    ensures
        r@ == json_option(text_of(*s)),
{
    match s {
        Some(t) => json_string(t.as_str()),
        None => owned("null"),
    }
}

fn json_flag(b: bool) -> (r: &'static str)
    ensures
        r@ == json_bool(b),
{
    if b {
        "true"
    } else {
        "false"
    }
}

fn json_list(parts: &Vec<String>) -> (r: String)
    ensures
        r@ == json_array(texts(parts@)),
{
    let mut out = owned("[");
    out.append(joined(parts.as_slice(), ",").as_str());
    out.append("]");
    out
}

fn json_chain(chain: &Vec<String>) -> (r: String)
    ensures
        r@ == json_texts(texts(chain@)),
{
    let mut parts: Vec<String> = Vec::new();
    let mut i: usize = 0;
    while i < chain.len()
        invariant
            i <= chain@.len(),
            parts@.len() == i,
            forall|j: int| 0 <= j < i ==> (#[trigger] parts@[j])@ == json_text(chain@[j]@),
        decreases chain@.len() - i,
    {
        parts.push(json_string(chain[i].as_str()));
        i = i + 1;
    }
    assert(texts(parts@) =~= texts(chain@).map_values(|s: Seq<char>| json_text(s)));
    json_list(&parts)
}

/// A type whose values can be written as JSON.
pub trait Json: View + Sized {
    spec fn json(v: Self::V) -> Seq<char>;

    fn to_json(&self) -> (r: String)
        ensures
            r@ == Self::json(self@),
    ;
}

/// A JSON array of values.
pub open spec fn json_values<T: Json>(list: Seq<T::V>) -> Seq<char> {
    json_array(list.map_values(|v: T::V| T::json(v)))
}

fn json_items<T: Json>(items: &Vec<T>) -> (r: String)
    ensures
        r@ == json_values::<T>(views(items@)),
{
    let mut parts: Vec<String> = Vec::new();
    let mut i: usize = 0;
    while i < items.len()
        invariant
            i <= items@.len(),
            parts@.len() == i,
            forall|j: int| 0 <= j < i ==> (#[trigger] parts@[j])@ == T::json(items@[j]@),
        decreases items@.len() - i,
    {
        parts.push(items[i].to_json());
        i = i + 1;
    }
    assert(texts(parts@) =~= views(items@).map_values(|v: T::V| T::json(v)));
    json_list(&parts)
}

impl Json for NeededReport {
    open spec fn json(n: NeededModel) -> Seq<char> {
        "{\"name\":"@ + json_text(n.name) + ",\"resolved\":"@ + json_option(n.resolved) + "}"@
    }

    fn to_json(&self) -> (r: String) {
        let mut out = owned("{\"name\":");
        out.append(json_string(self.name.as_str()).as_str());
        out.append(",\"resolved\":");
        out.append(json_opt(&self.resolved).as_str());
        out.append("}");
        out
    }
}

impl Json for ObjectReport {
    open spec fn json(o: ObjectReportModel) -> Seq<char> {
        "{\"path\":"@ + json_text(o.path) + ",\"executable\":"@ + json_bool(o.executable)
            + ",\"format\":"@ + json_text(o.format) + ",\"machine\":"@ + decimal(o.machine as nat)
            + ",\"soname\":"@ + json_option(o.soname) + ",\"rpath\":"@ + json_option(o.rpath)
            + ",\"runpath\":"@ + json_option(o.runpath) + ",\"needed\":"@ + json_values::<
            NeededReport,
        >(o.needed) + ",\"imports_dynamic_loader\":"@ + json_bool(o.imports_dynamic_loader)
            + ",\"dlopen_candidates\":"@ + json_texts(o.dlopen_candidates) + "}"@
    }

    fn to_json(&self) -> (r: String) {
        let mut out = owned("{\"path\":");
        out.append(json_string(self.path.as_str()).as_str());
        out.append(",\"executable\":");
        out.append(json_flag(self.executable));
        out.append(",\"format\":");
        out.append(json_string(self.format.as_str()).as_str());
        out.append(",\"machine\":");
        out.append(decimal_of(self.machine as u64).as_str());
        out.append(",\"soname\":");
        out.append(json_opt(&self.soname).as_str());
        out.append(",\"rpath\":");
        out.append(json_opt(&self.rpath).as_str());
        out.append(",\"runpath\":");
        out.append(json_opt(&self.runpath).as_str());
        out.append(",\"needed\":");
        out.append(json_items(&self.needed).as_str());
        out.append(",\"imports_dynamic_loader\":");
        out.append(json_flag(self.imports_dynamic_loader));
        out.append(",\"dlopen_candidates\":");
        out.append(json_chain(&self.dlopen_candidates).as_str());
        out.append("}");
        out
    }
}

/// A JSON array of load chains.
pub open spec fn json_chains(chains: Seq<Seq<Seq<char>>>) -> Seq<char> {
    json_array(chains.map_values(|c: Seq<Seq<char>>| json_texts(c)))
}

fn json_chain_list(chains: &Vec<Vec<String>>) -> (r: String)
    ensures
        r@ == json_chains(chain_texts(chains@)),
{
    let mut parts: Vec<String> = Vec::new();
    let mut i: usize = 0;
    while i < chains.len()
        invariant
            i <= chains@.len(),
            parts@.len() == i,
            forall|j: int| 0 <= j < i ==> (#[trigger] parts@[j])@ == json_texts(texts(chains@[j]@)),
        decreases chains@.len() - i,
    {
        parts.push(json_chain(&chains[i]));
        i = i + 1;
    }
    assert(texts(parts@) =~= chain_texts(chains@).map_values(|c: Seq<Seq<char>>| json_texts(c)));
    json_list(&parts)
}

impl Json for Finding {
    open spec fn json(f: FindingModel) -> Seq<char> {
        "{\"capability\":"@ + json_text(f.capability) + ",\"title\":"@ + json_text(f.title)
            + ",\"object\":"@ + json_text(f.object) + ",\"symbol\":"@ + json_text(f.symbol)
            + ",\"version\":"@ + json_option(f.version) + ",\"confidence\":"@ + json_text(
            confidence_text(f.confidence)@,
        ) + ",\"reached_via\":"@ + json_chains(f.reached_via) + "}"@
    }

    fn to_json(&self) -> (r: String) {
        let mut out = owned("{\"capability\":");
        out.append(json_string(self.capability.as_str()).as_str());
        out.append(",\"title\":");
        out.append(json_string(self.title.as_str()).as_str());
        out.append(",\"object\":");
        out.append(json_string(self.object.as_str()).as_str());
        out.append(",\"symbol\":");
        out.append(json_string(self.symbol.as_str()).as_str());
        out.append(",\"version\":");
        out.append(json_opt(&self.version).as_str());
        out.append(",\"confidence\":");
        out.append(json_string(self.confidence.as_str()).as_str());
        out.append(",\"reached_via\":");
        out.append(json_chain_list(&self.reached_via).as_str());
        out.append("}");
        out
    }
}

impl Json for FileError {
    open spec fn json(e: FileErrorModel) -> Seq<char> {
        "{\"path\":"@ + json_text(e.path) + ",\"message\":"@ + json_text(e.message) + "}"@
    }

    fn to_json(&self) -> (r: String) {
        let mut out = owned("{\"path\":");
        out.append(json_string(self.path.as_str()).as_str());
        out.append(",\"message\":");
        out.append(json_string(self.message.as_str()).as_str());
        out.append("}");
        out
    }
}

/// A report as one line of JSON.
pub open spec fn report_as_json(r: ReportModel) -> Seq<char> {
    "{\"root\":"@ + json_text(r.root) + ",\"objects\":"@ + json_values::<ObjectReport>(r.objects)
        + ",\"findings\":"@ + json_values::<Finding>(r.findings) + ",\"errors\":"@ + json_values::<
        FileError,
    >(r.errors) + "}\n"@
}

pub fn report_json(report: &Report) -> (r: String)
    ensures
        r@ == report_as_json(report@),
{
    let mut out = owned("{\"root\":");
    out.append(json_string(report.root.as_str()).as_str());
    out.append(",\"objects\":");
    out.append(json_items(&report.objects).as_str());
    out.append(",\"findings\":");
    out.append(json_items(&report.findings).as_str());
    out.append(",\"errors\":");
    out.append(json_items(&report.errors).as_str());
    out.append("}\n");
    out
}

impl Json for EvidenceKey {
    open spec fn json(e: KeyModel) -> Seq<char> {
        "{\"object\":"@ + json_text(e.object) + ",\"symbol\":"@ + json_text(e.symbol)
            + ",\"confidence\":"@ + json_text(confidence_text(e.confidence)@) + "}"@
    }

    fn to_json(&self) -> (r: String) {
        let mut out = owned("{\"object\":");
        out.append(json_string(self.object.as_str()).as_str());
        out.append(",\"symbol\":");
        out.append(json_string(self.symbol.as_str()).as_str());
        out.append(",\"confidence\":");
        out.append(json_string(self.confidence.as_str()).as_str());
        out.append("}");
        out
    }
}

impl Json for CapabilityChange {
    open spec fn json(c: ChangeModel) -> Seq<char> {
        "{\"capability\":"@ + json_text(c.capability) + ",\"title\":"@ + json_text(c.title)
            + ",\"evidence\":"@ + json_values::<EvidenceKey>(c.evidence) + "}"@
    }

    fn to_json(&self) -> (r: String) {
        let mut out = owned("{\"capability\":");
        out.append(json_string(self.capability.as_str()).as_str());
        out.append(",\"title\":");
        out.append(json_string(self.title.as_str()).as_str());
        out.append(",\"evidence\":");
        out.append(json_items(&self.evidence).as_str());
        out.append("}");
        out
    }
}

impl Json for EvidenceChange {
    open spec fn json(c: EvidenceChangeModel) -> Seq<char> {
        "{\"capability\":"@ + json_text(c.capability) + ",\"title\":"@ + json_text(c.title)
            + ",\"added\":"@ + json_values::<EvidenceKey>(c.added) + ",\"removed\":"@
            + json_values::<EvidenceKey>(c.removed) + "}"@
    }

    fn to_json(&self) -> (r: String) {
        let mut out = owned("{\"capability\":");
        out.append(json_string(self.capability.as_str()).as_str());
        out.append(",\"title\":");
        out.append(json_string(self.title.as_str()).as_str());
        out.append(",\"added\":");
        out.append(json_items(&self.added).as_str());
        out.append(",\"removed\":");
        out.append(json_items(&self.removed).as_str());
        out.append("}");
        out
    }
}

/// A comparison as one line of JSON.
pub open spec fn diff_as_json(d: DiffModel) -> Seq<char> {
    "{\"added\":"@ + json_values::<CapabilityChange>(d.added) + ",\"removed\":"@ + json_values::<
        CapabilityChange,
    >(d.removed) + ",\"changed\":"@ + json_values::<EvidenceChange>(d.changed) + "}\n"@
}

pub fn diff_json(diff: &Diff) -> (r: String)
    ensures
        r@ == diff_as_json(diff@),
{
    let mut out = owned("{\"added\":");
    out.append(json_items(&diff.added).as_str());
    out.append(",\"removed\":");
    out.append(json_items(&diff.removed).as_str());
    out.append(",\"changed\":");
    out.append(json_items(&diff.changed).as_str());
    out.append("}\n");
    out
}

/// Rows of cells as text.
pub open spec fn row_texts(rows: Seq<Vec<String>>) -> Seq<Seq<Seq<char>>> {
    rows.map_values(|row: Vec<String>| texts(row@))
}

/// The width of a column in the first `n` rows.
pub open spec fn column_width(rows: Seq<Seq<Seq<char>>>, c: int, n: int) -> nat
    decreases n,
{
    if n <= 0 {
        0
    } else {
        let before = column_width(rows, c, n - 1);
        let len = rows[n - 1][c].len();
        if before < len {
            len
        } else {
            before
        }
    }
}

/// The first `n` cells of a row. Every cell but the last of the row is padded to
/// the width of its column.
pub open spec fn row_cells(rows: Seq<Seq<Seq<char>>>, row: Seq<Seq<char>>, n: int) -> Seq<char>
    decreases n,
{
    if n <= 0 {
        Seq::empty()
    } else if n == row.len() {
        row_cells(rows, row, n - 1) + row[n - 1]
    } else {
        row_cells(rows, row, n - 1) + pad(
            row[n - 1],
            column_width(rows, n - 1, rows.len() as int),
        ) + "  "@
    }
}

/// A row of a table, without blanks at its end.
pub open spec fn row_line(rows: Seq<Seq<Seq<char>>>, row: Seq<Seq<char>>) -> Seq<char> {
    trim_end(row_cells(rows, row, row.len() as int)) + "\n"@
}

/// Rows of cells as a table with aligned columns.
pub open spec fn table_text(rows: Seq<Seq<Seq<char>>>) -> Seq<char> {
    concat(rows.map_values(|row: Seq<Seq<char>>| row_line(rows, row)))
}

/// All rows are as long as the first.
pub open spec fn is_rectangular(rows: Seq<Seq<Seq<char>>>) -> bool {
    forall|i: int| 0 <= i < rows.len() ==> (#[trigger] rows[i]).len() == rows[0].len()
}

fn width_of(rows: &Vec<Vec<String>>, c: usize) -> (r: usize)
    requires
        rows@.len() > 0,
        is_rectangular(row_texts(rows@)),
        c < rows@[0]@.len(),
    ensures
        r == column_width(row_texts(rows@), c as int, rows@.len() as int),
{
    let ghost model = row_texts(rows@);
    let mut width: usize = 0;
    let mut i: usize = 0;
    assert(model[0].len() == rows@[0]@.len());
    while i < rows.len()
        invariant
            i <= rows@.len(),
            model == row_texts(rows@),
            is_rectangular(model),
            rows@.len() > 0,
            c < model[0].len(),
            width == column_width(model, c as int, i as int),
        decreases rows@.len() - i,
    {
        assert(model[i as int] == texts(rows@[i as int]@));
        assert(model[i as int].len() == model[0].len());
        let len: usize = rows[i][c].as_str().unicode_len();
        if width < len {
            width = len;
        }
        i = i + 1;
    }
    width
}

fn cells_of(rows: &Vec<Vec<String>>, row: &Vec<String>, widths: &Vec<usize>) -> (r: String)
    requires
        widths@.len() == row@.len(),
        forall|c: int|
            0 <= c < row@.len() ==> #[trigger] widths@[c] == column_width(
                row_texts(rows@),
                c,
                rows@.len() as int,
            ),
    ensures
        r@ == row_cells(row_texts(rows@), texts(row@), row@.len() as int),
{
    let ghost model = row_texts(rows@);
    let mut line = String::new();
    let mut c: usize = 0;
    assert(line@ =~= Seq::<char>::empty());
    while c < row.len()
        invariant
            c <= row@.len(),
            widths@.len() == row@.len(),
            model == row_texts(rows@),
            forall|c: int|
                0 <= c < row@.len() ==> #[trigger] widths@[c] == column_width(
                    model,
                    c,
                    rows@.len() as int,
                ),
            line@ == row_cells(model, texts(row@), c as int),
        decreases row@.len() - c,
    {
        assert(texts(row@)[c as int] == row@[c as int]@);
        if c + 1 == row.len() {
            line.append(row[c].as_str());
        } else {
            push_padded(&mut line, row[c].as_str(), widths[c]);
            line.append("  ");
        }
        c = c + 1;
    }
    line
}

pub fn table(rows: &Vec<Vec<String>>) -> (r: String)
    requires
        is_rectangular(row_texts(rows@)),
    ensures
        r@ == table_text(row_texts(rows@)),
{
    let ghost model = row_texts(rows@);
    let ghost make = |row: Seq<Seq<char>>| row_line(model, row);
    let mut widths: Vec<usize> = Vec::new();
    if rows.len() > 0 {
        assert(model[0] == texts(rows@[0]@));
        let mut c: usize = 0;
        while c < rows[0].len()
            invariant
                c <= rows@[0]@.len(),
                rows@.len() > 0,
                model == row_texts(rows@),
                is_rectangular(model),
                widths@.len() == c,
                forall|j: int|
                    0 <= j < c ==> #[trigger] widths@[j] == column_width(
                        model,
                        j,
                        rows@.len() as int,
                    ),
            decreases rows@[0]@.len() - c,
        {
            widths.push(width_of(rows, c));
            c = c + 1;
        }
    }
    let mut out = String::new();
    let mut i: usize = 0;
    assert(out@ =~= concat(model.take(0).map_values(make)));
    while i < rows.len()
        invariant
            i <= rows@.len(),
            model == row_texts(rows@),
            is_rectangular(model),
            make == (|row: Seq<Seq<char>>| row_line(model, row)),
            rows@.len() > 0 ==> widths@.len() == model[0].len(),
            forall|j: int|
                0 <= j < widths@.len() ==> #[trigger] widths@[j] == column_width(
                    model,
                    j,
                    rows@.len() as int,
                ),
            out@ == concat(model.take(i as int).map_values(make)),
        decreases rows@.len() - i,
    {
        assert(model[i as int] == texts(rows@[i as int]@));
        assert(model[i as int].len() == model[0].len());
        let line = cells_of(rows, &rows[i], &widths);
        let chars = chars_of(line.as_str());
        let ghost before = out@;
        push_chars(&mut out, trimmed_end(&chars));
        out.append("\n");
        proof {
            let ghost done = model.take(i as int).map_values(make);
            assert(model.take(i + 1).map_values(make) =~= done.push(make(model[i as int])));
            lemma_concat_push(done, make(model[i as int]));
            assert(out@ =~= before + make(model[i as int]));
        }
        i = i + 1;
    }
    assert(model.take(model.len() as int) =~= model);
    out
}

/// The first object from the `i`th on with a path.
pub open spec fn object_at(objects: Seq<ObjectReportModel>, path: Seq<char>, i: int) -> Option<
    ObjectReportModel,
>
    decreases objects.len() - i,
{
    if i >= objects.len() {
        None
    } else if objects[i].path == path {
        Some(objects[i])
    } else {
        object_at(objects, path, i + 1)
    }
}

/// A load chain that starts with an executable.
pub open spec fn from_executable(chain: Seq<Seq<char>>, objects: Seq<ObjectReportModel>) -> bool {
    chain.len() > 0 && (object_at(objects, chain[0], 0) matches Some(o) && o.executable)
}

/// How an object is reached: its first load chain, and how many others there are.
pub open spec fn via(f: FindingModel, objects: Seq<ObjectReportModel>) -> Seq<char> {
    if f.reached_via.len() == 0 {
        Seq::empty()
    } else {
        let chain = f.reached_via[0];
        let first = if chain.len() == 1 {
            if from_executable(chain, objects) {
                "(executable)"@
            } else {
                "(not linked from any executable)"@
            }
        } else if from_executable(chain, objects) {
            join(chain, " -> "@)
        } else {
            join(chain, " -> "@) + " (no executable)"@
        };
        if f.reached_via.len() > 1 {
            first + " (+"@ + decimal((f.reached_via.len() - 1) as nat) + " more)"@
        } else {
            first
        }
    }
}

fn starts_at_executable(chain: &Vec<String>, objects: &Vec<ObjectReport>) -> (r: bool)
    ensures
        r == from_executable(texts(chain@), views(objects@)),
{
    if chain.len() == 0 {
        return false;
    }
    assert(texts(chain@)[0] == chain@[0]@);
    let ghost model = views(objects@);
    let ghost head = texts(chain@)[0];
    let mut i: usize = 0;
    while i < objects.len()
        invariant
            i <= objects@.len(),
            chain@.len() > 0,
            model == views(objects@),
            head == chain@[0]@,
            head == texts(chain@)[0],
            object_at(model, head, 0) == object_at(model, head, i as int),
        decreases objects@.len() - i,
    {
        assert(model[i as int] == objects@[i as int]@);
        if same_text(objects[i].path.as_str(), chain[0].as_str()) {
            return objects[i].executable;
        }
        i = i + 1;
    }
    false
}

fn via_text(finding: &Finding, report: &Report) -> (r: String)
    ensures
        r@ == via(finding@, report@.objects),
{
    let chains = &finding.reached_via;
    if chains.len() == 0 {
        let empty = String::new();
        assert(empty@ =~= Seq::<char>::empty());
        return empty;
    }
    let first = &chains[0];
    assert(finding@.reached_via[0] == texts(first@));
    let executable = starts_at_executable(first, &report.objects);
    let mut text = if first.len() == 1 {
        if executable {
            owned("(executable)")
        } else {
            owned("(not linked from any executable)")
        }
    } else {
        let mut chain = joined(first.as_slice(), " -> ");
        if !executable {
            chain.append(" (no executable)");
        }
        chain
    };
    if chains.len() > 1 {
        text.append(" (+");
        text.append(decimal_of((chains.len() - 1) as u64).as_str());
        text.append(" more)");
    }
    text
}

/// A symbol with its version, when it has one.
pub open spec fn versioned(symbol: Seq<char>, version: Option<Seq<char>>) -> Seq<char> {
    match version {
        Some(v) => symbol + "@"@ + v,
        None => symbol,
    }
}

/// A finding as a row of the table.
pub open spec fn finding_row(f: FindingModel, objects: Seq<ObjectReportModel>) -> Seq<Seq<char>> {
    seq![
        f.capability,
        f.object,
        versioned(f.symbol, f.version),
        confidence_text(f.confidence)@,
        via(f, objects),
    ]
}

/// The names of the columns.
pub open spec fn head_row() -> Seq<Seq<char>> {
    seq!["CAPABILITY"@, "OBJECT"@, "SYMBOL"@, "CONFIDENCE"@, "REACHED VIA"@]
}

/// The findings as a table.
pub open spec fn findings_table(r: ReportModel) -> Seq<char> {
    table_text(
        seq![head_row()] + r.findings.map_values(|f: FindingModel| finding_row(f, r.objects)),
    )
}

fn row_of(f: &Finding, report: &Report) -> (r: Vec<String>)
    ensures
        texts(r@) == finding_row(f@, report@.objects),
{
    let mut symbol = f.symbol.clone();
    if let Some(v) = &f.version {
        symbol.append("@");
        symbol.append(v.as_str());
    }
    let mut row: Vec<String> = Vec::new();
    row.push(f.capability.clone());
    row.push(f.object.clone());
    row.push(symbol);
    row.push(owned(f.confidence.as_str()));
    row.push(via_text(f, report));
    assert(texts(row@) =~= finding_row(f@, report@.objects));
    row
}

fn findings_as_table(report: &Report) -> (r: String)
    ensures
        r@ == findings_table(report@),
{
    let mut head: Vec<String> = Vec::new();
    head.push(owned("CAPABILITY"));
    head.push(owned("OBJECT"));
    head.push(owned("SYMBOL"));
    head.push(owned("CONFIDENCE"));
    head.push(owned("REACHED VIA"));
    assert(texts(head@) =~= head_row());
    let mut rows: Vec<Vec<String>> = Vec::new();
    rows.push(head);
    let mut i: usize = 0;
    while i < report.findings.len()
        invariant
            i <= report.findings@.len(),
            rows@.len() == i + 1,
            texts(rows@[0]@) == head_row(),
            forall|j: int|
                0 <= j < i ==> texts((#[trigger] rows@[j + 1])@) == finding_row(
                    report.findings@[j]@,
                    report@.objects,
                ),
        decreases report.findings@.len() - i,
    {
        let ghost before = rows@;
        rows.push(row_of(&report.findings[i], report));
        assert forall|j: int| 0 <= j < i + 1 implies texts((#[trigger] rows@[j + 1])@)
            == finding_row(report.findings@[j]@, report@.objects) by {
            if j < i {
                assert(rows@[j + 1] == before[j + 1]);
            }
        }
        i = i + 1;
    }
    proof {
        let all = seq![head_row()] + report@.findings.map_values(
            |f: FindingModel| finding_row(f, report@.objects),
        );
        assert(row_texts(rows@).len() == all.len());
        assert forall|k: int| 0 <= k < all.len() implies #[trigger] row_texts(rows@)[k]
            == all[k] by {
            if k > 0 {
                let j = k - 1;
                assert(texts(rows@[j + 1]@) == finding_row(
                    report.findings@[j]@,
                    report@.objects,
                ));
            }
        }
        assert(row_texts(rows@) =~= all);
        assert(is_rectangular(all));
    }
    table(&rows)
}

/// The summary at the top of a report.
pub open spec fn summary(r: ReportModel) -> Seq<char> {
    "Scanned "@ + r.root + ": "@ + decimal(r.objects.len()) + " ELF objects ("@ + decimal(
        r.objects.filter(|o: ObjectReportModel| o.executable).len(),
    ) + " executable), "@ + decimal(r.findings.len()) + " findings in "@ + decimal(
        found(r.findings).len(),
    ) + " capabilities.\n\n"@
}

/// A capability of the database in the list of those that were found.
pub open spec fn capability_line(c: CapModel) -> Seq<char> {
    "  "@ + pad(c.id, 22) + " "@ + c.title + "\n"@
}

/// The findings, and the titles of their capabilities in the order of the database.
pub open spec fn findings_text(r: ReportModel, db: Seq<CapModel>) -> Seq<char> {
    if r.findings.len() == 0 {
        "No imports or strings from the capability database were found.\n"@
    } else {
        findings_table(r) + "\nCapabilities found:\n"@ + concat(
            db.filter(|c: CapModel| found(r.findings).contains(c.id)).map_values(
                |c: CapModel| capability_line(c),
            ),
        )
    }
}

/// A section of a report: nothing without lines, else a heading and the lines.
pub open spec fn section(heading: Seq<char>, lines: Seq<Seq<char>>) -> Seq<char> {
    if lines.len() == 0 {
        Seq::empty()
    } else {
        heading + concat(lines)
    }
}

/// A path with names behind it.
pub open spec fn names_line(path: Seq<char>, names: Seq<Seq<char>>) -> Seq<char> {
    "  "@ + path + ": "@ + join(names, ", "@) + "\n"@
}

/// The library names in objects that can load libraries by name.
pub open spec fn dynamic_lines(objects: Seq<ObjectReportModel>) -> Seq<Seq<char>> {
    objects.filter(|o: ObjectReportModel| o.dlopen_candidates.len() > 0).map_values(
        |o: ObjectReportModel| names_line(o.path, o.dlopen_candidates),
    )
}

/// The dependencies of an object that were not found in the bundle.
pub open spec fn unresolved(o: ObjectReportModel) -> Seq<Seq<char>> {
    o.needed.filter(|n: NeededModel| n.resolved is None).map_values(|n: NeededModel| n.name)
}

pub open spec fn external_lines(objects: Seq<ObjectReportModel>) -> Seq<Seq<char>> {
    objects.filter(|o: ObjectReportModel| unresolved(o).len() > 0).map_values(
        |o: ObjectReportModel| names_line(o.path, unresolved(o)),
    )
}

pub open spec fn error_lines(errors: Seq<FileErrorModel>) -> Seq<Seq<char>> {
    errors.map_values(|e: FileErrorModel| "  "@ + e.path + ": "@ + e.message + "\n"@)
}

/// A report as text.
pub open spec fn report_as_text(r: ReportModel, db: Seq<CapModel>) -> Seq<char> {
    summary(r) + findings_text(r, db) + section(
        "\nLibrary names in objects that import dlopen/dlsym:\n"@,
        dynamic_lines(r.objects),
    ) + section(
        "\nDT_NEEDED not found in the bundle (left to the system):\n"@,
        external_lines(r.objects),
    ) + section("\nCould not load:\n"@, error_lines(r.errors))
}

/// The capabilities with some finding, in order.
fn capabilities_found(report: &Report) -> (r: Vec<String>)
    ensures
        ascending::<String>(views(r@)),
        views(r@).to_set() == found(report@.findings),
        r@.len() == found(report@.findings).len(),
{
    let ghost all = report@.findings;
    let mut ids: Vec<String> = Vec::new();
    let mut i: usize = 0;
    assert(views(ids@).to_set() =~= found(all.take(0)));
    while i < report.findings.len()
        invariant
            i <= report.findings@.len(),
            all == report@.findings,
            ascending::<String>(views(ids@)),
            views(ids@).to_set() == found(all.take(i as int)),
        decreases report.findings@.len() - i,
    {
        let f = &report.findings[i];
        insert_unique(&mut ids, f.capability.clone());
        proof {
            let before = all.take(i as int);
            let after = all.take(i + 1);
            let c = f@.capability;
            assert(after[i as int].capability == c);
            assert forall|x: Seq<char>| found(after).contains(x) == found(before).insert(
                c,
            ).contains(x) by {
                if is_found(before, x) {
                    let k = choose|k: int|
                        0 <= k < before.len() && (#[trigger] before[k]).capability == x;
                    assert(after[k].capability == x);
                }
                if is_found(after, x) {
                    let k = choose|k: int|
                        0 <= k < after.len() && (#[trigger] after[k]).capability == x;
                    if k < i {
                        assert(before[k].capability == x);
                    }
                }
            }
            assert(found(after) =~= found(before).insert(c));
        }
        i = i + 1;
    }
    proof {
        assert(all.take(all.len() as int) =~= all);
        let q = views(ids@);
        assert(q.no_duplicates()) by {
            assert forall|a: int, b: int| 0 <= a < b < q.len() implies q[a] != q[b] by {
                lemma_text_irreflexive(q[a]);
            }
        }
        q.unique_seq_to_set();
    }
    ids
}

fn count_executables(objects: &Vec<ObjectReport>) -> (r: usize)
    ensures
        r == views(objects@).filter(|o: ObjectReportModel| o.executable).len(),
{
    let ghost all = views(objects@);
    let ghost p = |o: ObjectReportModel| o.executable;
    let mut n: usize = 0;
    let mut i: usize = 0;
    assert(all.take(0).filter(p).len() == 0) by {
        all.take(0).lemma_filter_len(p);
    }
    while i < objects.len()
        invariant
            i <= objects@.len(),
            all == views(objects@),
            p == (|o: ObjectReportModel| o.executable),
            n == all.take(i as int).filter(p).len(),
            n <= i,
        decreases objects@.len() - i,
    {
        let o = &objects[i];
        proof {
            assert(all[i as int] == o@);
            assert(all.take(i + 1) =~= all.take(i as int).push(o@));
            all.take(i as int).lemma_filter_push(o@, p);
        }
        if o.executable {
            n = n + 1;
        }
        i = i + 1;
    }
    assert(all.take(all.len() as int) =~= all);
    n
}

fn findings_section(report: &Report, db: &CapDb, ids: &Vec<String>) -> (r: String)
    requires
        ascending::<String>(views(ids@)),
        views(ids@).to_set() == found(report@.findings),
    ensures
        r@ == findings_text(report@, db@),
{
    if report.findings.len() == 0 {
        return owned("No imports or strings from the capability database were found.\n");
    }
    let mut out = findings_as_table(report);
    out.append("\nCapabilities found:\n");
    let ghost base = out@;
    let ghost all = db@;
    let ghost p = |c: CapModel| found(report@.findings).contains(c.id);
    let ghost f = |c: CapModel| capability_line(c);
    let caps = db.capabilities();
    let mut i: usize = 0;
    assert(out@ =~= base + concat(all.take(0).filter(p).map_values(f)));
    while i < caps.len()
        invariant
            i <= caps@.len(),
            views(caps@) == all,
            ascending::<String>(views(ids@)),
            views(ids@).to_set() == found(report@.findings),
            p == (|c: CapModel| found(report@.findings).contains(c.id)),
            f == (|c: CapModel| capability_line(c)),
            out@ == base + concat(all.take(i as int).filter(p).map_values(f)),
        decreases caps@.len() - i,
    {
        let cap = &caps[i];
        let ghost kept = all.take(i as int).filter(p);
        let ghost before = out@;
        proof {
            assert(all[i as int] == cap@);
            assert(all.take(i + 1) =~= all.take(i as int).push(cap@));
            all.take(i as int).lemma_filter_push(cap@, p);
            assert(kept.push(cap@).map_values(f) =~= kept.map_values(f).push(f(cap@)));
            lemma_concat_push(kept.map_values(f), f(cap@));
            assert(views(ids@).contains(cap.id@) == views(ids@).to_set().contains(cap.id@));
        }
        if holds(ids.as_slice(), &cap.id) {
            out.append("  ");
            push_padded(&mut out, cap.id.as_str(), 22);
            out.append(" ");
            out.append(cap.title.as_str());
            out.append("\n");
            assert(out@ =~= before + capability_line(cap@));
            assert(out@ =~= base + (concat(kept.map_values(f)) + f(cap@)));
        }
        i = i + 1;
    }
    assert(all.take(all.len() as int) =~= all);
    out
}

fn push_names_line(out: &mut String, path: &str, names: &Vec<String>)
    ensures
        final(out)@ == old(out)@ + names_line(path@, texts(names@)),
{
    out.append("  ");
    out.append(path);
    out.append(": ");
    out.append(joined(names.as_slice(), ", ").as_str());
    out.append("\n");
    assert(out@ =~= old(out)@ + names_line(path@, texts(names@)));
}

fn dynamic_section(objects: &Vec<ObjectReport>) -> (r: String)
    ensures
        r@ == section(
            "\nLibrary names in objects that import dlopen/dlsym:\n"@,
            dynamic_lines(views(objects@)),
        ),
{
    let ghost all = views(objects@);
    let ghost p = |o: ObjectReportModel| o.dlopen_candidates.len() > 0;
    let ghost f = |o: ObjectReportModel| names_line(o.path, o.dlopen_candidates);
    let mut out = owned("\nLibrary names in objects that import dlopen/dlsym:\n");
    let ghost base = out@;
    let mut any = false;
    let mut i: usize = 0;
    assert(out@ =~= base + concat(all.take(0).filter(p).map_values(f)));
    assert(all.take(0).filter(p).len() == 0) by {
        all.take(0).lemma_filter_len(p);
    }
    while i < objects.len()
        invariant
            i <= objects@.len(),
            all == views(objects@),
            p == (|o: ObjectReportModel| o.dlopen_candidates.len() > 0),
            f == (|o: ObjectReportModel| names_line(o.path, o.dlopen_candidates)),
            any == (all.take(i as int).filter(p).len() > 0),
            out@ == base + concat(all.take(i as int).filter(p).map_values(f)),
        decreases objects@.len() - i,
    {
        let o = &objects[i];
        let ghost kept = all.take(i as int).filter(p);
        proof {
            assert(all[i as int] == o@);
            assert(all.take(i + 1) =~= all.take(i as int).push(o@));
            all.take(i as int).lemma_filter_push(o@, p);
            assert(kept.push(o@).map_values(f) =~= kept.map_values(f).push(f(o@)));
            lemma_concat_push(kept.map_values(f), f(o@));
        }
        if o.dlopen_candidates.len() > 0 {
            any = true;
            push_names_line(&mut out, o.path.as_str(), &o.dlopen_candidates);
            assert(out@ =~= base + (concat(kept.map_values(f)) + f(o@)));
        }
        i = i + 1;
    }
    assert(all.take(all.len() as int) =~= all);
    if any {
        out
    } else {
        let empty = String::new();
        assert(empty@ =~= Seq::<char>::empty());
        empty
    }
}

/// The dependencies of an object that were not found in the bundle.
fn unresolved_names(o: &ObjectReport) -> (r: Vec<String>)
    ensures
        texts(r@) == unresolved(o@),
{
    let ghost all = o@.needed;
    let ghost p = |n: NeededModel| n.resolved is None;
    let ghost f = |n: NeededModel| n.name;
    let mut names: Vec<String> = Vec::new();
    let mut i: usize = 0;
    assert(texts(names@) =~= all.take(0).filter(p).map_values(f));
    while i < o.needed.len()
        invariant
            i <= o.needed@.len(),
            all == views(o.needed@),
            p == (|n: NeededModel| n.resolved is None),
            f == (|n: NeededModel| n.name),
            texts(names@) == all.take(i as int).filter(p).map_values(f),
        decreases o.needed@.len() - i,
    {
        let n = &o.needed[i];
        let ghost kept = all.take(i as int).filter(p);
        let ghost before = texts(names@);
        proof {
            assert(all[i as int] == n@);
            assert(all.take(i + 1) =~= all.take(i as int).push(n@));
            all.take(i as int).lemma_filter_push(n@, p);
            assert(kept.push(n@).map_values(f) =~= kept.map_values(f).push(f(n@)));
        }
        if n.resolved.is_none() {
            names.push(n.name.clone());
            assert(texts(names@) =~= before.push(n.name@));
        }
        i = i + 1;
    }
    assert(all.take(all.len() as int) =~= all);
    names
}

fn external_section(objects: &Vec<ObjectReport>) -> (r: String)
    ensures
        r@ == section(
            "\nDT_NEEDED not found in the bundle (left to the system):\n"@,
            external_lines(views(objects@)),
        ),
{
    let ghost all = views(objects@);
    let ghost p = |o: ObjectReportModel| unresolved(o).len() > 0;
    let ghost f = |o: ObjectReportModel| names_line(o.path, unresolved(o));
    let mut out = owned("\nDT_NEEDED not found in the bundle (left to the system):\n");
    let ghost base = out@;
    let mut any = false;
    let mut i: usize = 0;
    assert(out@ =~= base + concat(all.take(0).filter(p).map_values(f)));
    assert(all.take(0).filter(p).len() == 0) by {
        all.take(0).lemma_filter_len(p);
    }
    while i < objects.len()
        invariant
            i <= objects@.len(),
            all == views(objects@),
            p == (|o: ObjectReportModel| unresolved(o).len() > 0),
            f == (|o: ObjectReportModel| names_line(o.path, unresolved(o))),
            any == (all.take(i as int).filter(p).len() > 0),
            out@ == base + concat(all.take(i as int).filter(p).map_values(f)),
        decreases objects@.len() - i,
    {
        let o = &objects[i];
        let ghost kept = all.take(i as int).filter(p);
        let names = unresolved_names(o);
        proof {
            assert(texts(names@).len() == names@.len());
            assert(all[i as int] == o@);
            assert(all.take(i + 1) =~= all.take(i as int).push(o@));
            all.take(i as int).lemma_filter_push(o@, p);
            assert(kept.push(o@).map_values(f) =~= kept.map_values(f).push(f(o@)));
            lemma_concat_push(kept.map_values(f), f(o@));
        }
        if names.len() > 0 {
            any = true;
            push_names_line(&mut out, o.path.as_str(), &names);
            assert(out@ =~= base + (concat(kept.map_values(f)) + f(o@)));
        }
        i = i + 1;
    }
    assert(all.take(all.len() as int) =~= all);
    if any {
        out
    } else {
        let empty = String::new();
        assert(empty@ =~= Seq::<char>::empty());
        empty
    }
}

fn error_section(errors: &Vec<FileError>) -> (r: String)
    ensures
        r@ == section("\nCould not load:\n"@, error_lines(views(errors@))),
{
    if errors.len() == 0 {
        let empty = String::new();
        assert(empty@ =~= Seq::<char>::empty());
        return empty;
    }
    let ghost all = views(errors@);
    let ghost lines = error_lines(all);
    let mut out = owned("\nCould not load:\n");
    let ghost base = out@;
    let mut i: usize = 0;
    assert(out@ =~= base + concat(lines.take(0)));
    while i < errors.len()
        invariant
            i <= errors@.len(),
            all == views(errors@),
            lines == error_lines(all),
            out@ == base + concat(lines.take(i as int)),
        decreases errors@.len() - i,
    {
        let e = &errors[i];
        let ghost before = out@;
        proof {
            assert(all[i as int] == e@);
            assert(lines.take(i + 1) =~= lines.take(i as int).push(lines[i as int]));
            lemma_concat_push(lines.take(i as int), lines[i as int]);
        }
        out.append("  ");
        out.append(e.path.as_str());
        out.append(": ");
        out.append(e.message.as_str());
        out.append("\n");
        assert(out@ =~= before + lines[i as int]);
        assert(out@ =~= base + (concat(lines.take(i as int)) + lines[i as int]));
        i = i + 1;
    }
    assert(lines.take(lines.len() as int) =~= lines);
    out
}

pub fn report_text(report: &Report, db: &CapDb) -> (r: String)
    ensures
        r@ == report_as_text(report@, db@),
{
    let ids = capabilities_found(report);
    let mut out = owned("Scanned ");
    out.append(report.root.as_str());
    out.append(": ");
    out.append(decimal_of(report.objects.len() as u64).as_str());
    out.append(" ELF objects (");
    out.append(decimal_of(count_executables(&report.objects) as u64).as_str());
    out.append(" executable), ");
    out.append(decimal_of(report.findings.len() as u64).as_str());
    out.append(" findings in ");
    out.append(decimal_of(ids.len() as u64).as_str());
    out.append(" capabilities.\n\n");
    assert(out@ == summary(report@));
    out.append(findings_section(report, db, &ids).as_str());
    out.append(dynamic_section(&report.objects).as_str());
    out.append(external_section(&report.objects).as_str());
    out.append(error_section(&report.errors).as_str());
    out
}

/// A piece of evidence as a line.
pub open spec fn evidence_line(sign: Seq<char>, e: KeyModel) -> Seq<char> {
    "    "@ + sign + e.object + "  "@ + e.symbol + "  "@ + confidence_text(e.confidence)@ + "\n"@
}

/// Pieces of evidence, one per line.
pub open spec fn evidence_lines(sign: Seq<char>, list: Seq<KeyModel>) -> Seq<char> {
    concat(list.map_values(|e: KeyModel| evidence_line(sign, e)))
}

/// A capability that was added or removed.
pub open spec fn change_lines(sign: Seq<char>, c: ChangeModel) -> Seq<char> {
    sign + c.capability + "  "@ + c.title + "\n"@ + evidence_lines(""@, c.evidence)
}

/// A capability whose evidence changed.
pub open spec fn evidence_change_lines(c: EvidenceChangeModel) -> Seq<char> {
    "~ "@ + c.capability + "  evidence changed\n"@ + evidence_lines("+ "@, c.added)
        + evidence_lines("- "@, c.removed)
}

/// A comparison as text.
pub open spec fn diff_as_text(d: DiffModel, first: Seq<char>, second: Seq<char>) -> Seq<char> {
    "Capability diff "@ + first + " -> "@ + second + "\n\n"@ + if is_no_change(d) {
        "No capability changes.\n"@
    } else {
        concat(d.added.map_values(|c: ChangeModel| change_lines("+ "@, c))) + concat(
            d.removed.map_values(|c: ChangeModel| change_lines("- "@, c)),
        ) + concat(d.changed.map_values(|c: EvidenceChangeModel| evidence_change_lines(c)))
    }
}

fn push_evidence(out: &mut String, sign: &str, list: &Vec<EvidenceKey>)
    ensures
        final(out)@ == old(out)@ + evidence_lines(sign@, views(list@)),
{
    let ghost base = out@;
    let ghost lines = views(list@).map_values(|e: KeyModel| evidence_line(sign@, e));
    let mut i: usize = 0;
    assert(out@ =~= base + concat(lines.take(0)));
    while i < list.len()
        invariant
            i <= list@.len(),
            lines == views(list@).map_values(|e: KeyModel| evidence_line(sign@, e)),
            out@ == base + concat(lines.take(i as int)),
        decreases list@.len() - i,
    {
        let e = &list[i];
        let ghost before = out@;
        proof {
            assert(views(list@)[i as int] == e@);
            assert(lines.take(i + 1) =~= lines.take(i as int).push(lines[i as int]));
            lemma_concat_push(lines.take(i as int), lines[i as int]);
        }
        out.append("    ");
        out.append(sign);
        out.append(e.object.as_str());
        out.append("  ");
        out.append(e.symbol.as_str());
        out.append("  ");
        out.append(e.confidence.as_str());
        out.append("\n");
        assert(out@ =~= before + lines[i as int]);
        assert(out@ =~= base + (concat(lines.take(i as int)) + lines[i as int]));
        i = i + 1;
    }
    assert(lines.take(lines.len() as int) =~= lines);
}

fn push_changes(out: &mut String, sign: &str, list: &Vec<CapabilityChange>)
    ensures
        final(out)@ == old(out)@ + concat(
            views(list@).map_values(|c: ChangeModel| change_lines(sign@, c)),
        ),
{
    let ghost base = out@;
    let ghost lines = views(list@).map_values(|c: ChangeModel| change_lines(sign@, c));
    let mut i: usize = 0;
    assert(out@ =~= base + concat(lines.take(0)));
    while i < list.len()
        invariant
            i <= list@.len(),
            lines == views(list@).map_values(|c: ChangeModel| change_lines(sign@, c)),
            out@ == base + concat(lines.take(i as int)),
        decreases list@.len() - i,
    {
        let c = &list[i];
        let ghost before = out@;
        proof {
            assert(views(list@)[i as int] == c@);
            assert(lines.take(i + 1) =~= lines.take(i as int).push(lines[i as int]));
            lemma_concat_push(lines.take(i as int), lines[i as int]);
        }
        out.append(sign);
        out.append(c.capability.as_str());
        out.append("  ");
        out.append(c.title.as_str());
        out.append("\n");
        push_evidence(out, "", &c.evidence);
        assert(out@ =~= before + lines[i as int]);
        assert(out@ =~= base + (concat(lines.take(i as int)) + lines[i as int]));
        i = i + 1;
    }
    assert(lines.take(lines.len() as int) =~= lines);
}

fn push_evidence_changes(out: &mut String, list: &Vec<EvidenceChange>)
    ensures
        final(out)@ == old(out)@ + concat(
            views(list@).map_values(|c: EvidenceChangeModel| evidence_change_lines(c)),
        ),
{
    let ghost base = out@;
    let ghost lines = views(list@).map_values(|c: EvidenceChangeModel| evidence_change_lines(c));
    let mut i: usize = 0;
    assert(out@ =~= base + concat(lines.take(0)));
    while i < list.len()
        invariant
            i <= list@.len(),
            lines == views(list@).map_values(
                |c: EvidenceChangeModel| evidence_change_lines(c),
            ),
            out@ == base + concat(lines.take(i as int)),
        decreases list@.len() - i,
    {
        let c = &list[i];
        let ghost before = out@;
        proof {
            assert(views(list@)[i as int] == c@);
            assert(lines.take(i + 1) =~= lines.take(i as int).push(lines[i as int]));
            lemma_concat_push(lines.take(i as int), lines[i as int]);
        }
        out.append("~ ");
        out.append(c.capability.as_str());
        out.append("  evidence changed\n");
        push_evidence(out, "+ ", &c.added);
        push_evidence(out, "- ", &c.removed);
        assert(out@ =~= before + lines[i as int]);
        assert(out@ =~= base + (concat(lines.take(i as int)) + lines[i as int]));
        i = i + 1;
    }
    assert(lines.take(lines.len() as int) =~= lines);
}

pub fn diff_text(diff: &Diff, first: &str, second: &str) -> (r: String)
    ensures
        r@ == diff_as_text(diff@, first@, second@),
{
    let mut out = owned("Capability diff ");
    out.append(first);
    out.append(" -> ");
    out.append(second);
    out.append("\n\n");
    if diff.is_empty() {
        out.append("No capability changes.\n");
        return out;
    }
    push_changes(&mut out, "+ ", &diff.added);
    push_changes(&mut out, "- ", &diff.removed);
    push_evidence_changes(&mut out, &diff.changed);
    assert(out@ =~= diff_as_text(diff@, first@, second@));
    out
}

/// A labelled list of words on a line of its own; nothing without words.
pub open spec fn words_line(label: Seq<char>, list: Seq<Seq<char>>) -> Seq<char> {
    if list.len() == 0 {
        Seq::empty()
    } else {
        label + join(list, " "@) + "\n"@
    }
}

/// A capability of the database with all that is known about it.
pub open spec fn capability_lines(c: CapModel) -> Seq<char> {
    c.id + "\n  "@ + c.title + "\n"@ + words_line("  symbols: "@, c.symbols) + words_line(
        "  strings: "@,
        c.strings,
    ) + "  why: "@ + c.rationale + "\n\n"@
}

/// A database as text.
pub open spec fn db_as_text(db: Seq<CapModel>) -> Seq<char> {
    concat(db.map_values(|c: CapModel| capability_lines(c)))
}

fn push_words_line(out: &mut String, label: &str, list: &Vec<String>)
    ensures
        final(out)@ == old(out)@ + words_line(label@, texts(list@)),
{
    if list.len() > 0 {
        out.append(label);
        out.append(joined(list.as_slice(), " ").as_str());
        out.append("\n");
    }
    assert(out@ =~= old(out)@ + words_line(label@, texts(list@)));
}

pub fn capabilities_text(db: &CapDb) -> (r: String)
    ensures
        r@ == db_as_text(db@),
{
    let caps = db.capabilities();
    let ghost lines = db@.map_values(|c: CapModel| capability_lines(c));
    let mut out = String::new();
    let mut i: usize = 0;
    assert(out@ =~= concat(lines.take(0)));
    while i < caps.len()
        invariant
            i <= caps@.len(),
            views(caps@) == db@,
            lines == db@.map_values(|c: CapModel| capability_lines(c)),
            out@ == concat(lines.take(i as int)),
        decreases caps@.len() - i,
    {
        let cap = &caps[i];
        let ghost before = out@;
        proof {
            assert(db@[i as int] == cap@);
            assert(lines.take(i + 1) =~= lines.take(i as int).push(lines[i as int]));
            lemma_concat_push(lines.take(i as int), lines[i as int]);
        }
        out.append(cap.id.as_str());
        out.append("\n  ");
        out.append(cap.title.as_str());
        out.append("\n");
        push_words_line(&mut out, "  symbols: ", &cap.symbols);
        push_words_line(&mut out, "  strings: ", &cap.strings);
        out.append("  why: ");
        out.append(cap.rationale.as_str());
        out.append("\n\n");
        assert(out@ =~= before + lines[i as int]);
        i = i + 1;
    }
    assert(lines.take(lines.len() as int) =~= lines);
    out
}

} // verus!
