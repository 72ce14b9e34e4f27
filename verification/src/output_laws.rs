//! Laws of the JSON output.

use crate::diff::{
    CapabilityChange, ChangeModel, DiffModel, EvidenceChange, EvidenceChangeModel, EvidenceKey,
    KeyModel,
};
use crate::output::{
    diff_as_json, json_array, json_bool, json_chains, json_char, json_chars, json_option, json_text,
    json_texts, json_values, report_as_json, Json,
};
use crate::scan::{
    FileError, FileErrorModel, Finding, FindingModel, NeededModel, NeededReport, ObjectReport,
    ObjectReportModel, ReportModel,
};
use crate::text::{decimal, digit, join, numeral};
use vstd::prelude::*;

verus! {

/// The value of a hexadecimal digit.
pub open spec fn hex_value(c: char) -> int {
    if '0' <= c <= '9' {
        c as int - '0' as int
    } else {
        c as int - 'a' as int + 10
    }
}

/// A character in front of what was read of the rest.
pub open spec fn preceded(c: char, rest: Option<Seq<char>>) -> Option<Seq<char>> {
    match rest {
        Some(s) => Some(seq![c] + s),
        None => None,
    }
}

/// The text that the inside of a JSON string stands for.
pub open spec fn json_read(t: Seq<char>) -> Option<Seq<char>>
    decreases t.len(),
{
    if t.len() == 0 {
        Some(Seq::empty())
    } else if t[0] == '"' || !(' ' <= t[0]) {
        None
    } else if t[0] != '\\' {
        preceded(t[0], json_read(t.skip(1)))
    } else if t.len() < 2 {
        None
    } else if t[1] == '"' || t[1] == '\\' {
        preceded(t[1], json_read(t.skip(2)))
    } else if t[1] == 'n' {
        preceded('\n', json_read(t.skip(2)))
    } else if t[1] == 'r' {
        preceded('\r', json_read(t.skip(2)))
    } else if t[1] == 't' {
        preceded('\t', json_read(t.skip(2)))
    } else if t[1] == 'u' && t.len() >= 6 {
        preceded(
            (((hex_value(t[2]) * 16 + hex_value(t[3])) * 16 + hex_value(t[4])) * 16 + hex_value(
                t[5],
            )) as char,
            json_read(t.skip(6)),
        )
    } else {
        None
    }
}

/// The escapes of JSON strings, character by character.
pub proof fn lemma_literals()
    ensures
        "\\\""@ == seq!['\\', '"'],
        "\\\\"@ == seq!['\\', '\\'],
        "\\n"@ == seq!['\\', 'n'],
        "\\r"@ == seq!['\\', 'r'],
        "\\t"@ == seq!['\\', 't'],
        "\\u00"@ == seq!['\\', 'u', '0', '0'],
{
    reveal_strlit("\\\"");
    reveal_strlit("\\\\");
    reveal_strlit("\\n");
    reveal_strlit("\\r");
    reveal_strlit("\\t");
    reveal_strlit("\\u00");
    assert("\\\""@ =~= seq!['\\', '"']);
    assert("\\\\"@ =~= seq!['\\', '\\']);
    assert("\\n"@ =~= seq!['\\', 'n']);
    assert("\\r"@ =~= seq!['\\', 'r']);
    assert("\\t"@ =~= seq!['\\', 't']);
    assert("\\u00"@ =~= seq!['\\', 'u', '0', '0']);
}

/// A written character is read back, whatever follows it.
proof fn lemma_char_round_trip(c: char, rest: Seq<char>)
    ensures
        json_read(json_char(c) + rest) == preceded(c, json_read(rest)),
{
    lemma_literals();
    let w = json_char(c);
    let t = w + rest;
    if c == '"' || c == '\\' || c == '\n' || c == '\r' || c == '\t' {
        assert(t[0] == '\\');
        assert(t[1] == w[1]);
        assert(t.skip(2) =~= rest);
    } else if (c as u32) < 0x20 {
        let hi = c as nat / 16;
        let lo = c as nat % 16;
        assert(w =~= seq!['\\', 'u', '0', '0', digit(hi), digit(lo)]);
        assert(t[0] == '\\' && t[1] == 'u' && t[2] == '0' && t[3] == '0');
        assert(t[4] == digit(hi) && t[5] == digit(lo));
        assert(hex_value(digit(hi)) == hi);
        assert(hex_value(digit(lo)) == lo);
        assert(t.skip(6) =~= rest);
        assert(hi * 16 + lo == c as int);
    } else {
        assert(t[0] == c);
        assert(t.skip(1) =~= rest);
    }
}

/// The inside of a JSON string starts with its first character.
pub proof fn lemma_chars_front(s: Seq<char>)
    requires
        s.len() > 0,
    ensures
        json_chars(s) == json_char(s[0]) + json_chars(s.drop_first()),
    decreases s.len(),
{
    let rest = s.drop_first();
    if rest.len() == 0 {
        assert(s.drop_last() =~= Seq::<char>::empty());
        assert(json_chars(rest) =~= Seq::<char>::empty());
        assert(json_chars(s.drop_last()) =~= Seq::<char>::empty());
        assert(s.last() == s[0]);
        assert(json_chars(s) =~= json_char(s[0]) + json_chars(rest));
    } else {
        lemma_chars_front(s.drop_last());
        assert(s.drop_last().drop_first() =~= rest.drop_last());
        assert(json_chars(s) =~= json_char(s[0]) + (json_chars(rest.drop_last()) + json_char(
            rest.last(),
        )));
    }
}

/// The inside of a JSON string reads back as the text that was written.
pub proof fn law_json_strings_round_trip(s: Seq<char>)
    ensures
        json_read(json_chars(s)) == Some(s),
    decreases s.len(),
{
    if s.len() == 0 {
        assert(s =~= Seq::<char>::empty());
    } else {
        lemma_chars_front(s);
        let rest = s.drop_first();
        law_json_strings_round_trip(rest);
        lemma_char_round_trip(s[0], json_chars(rest));
        assert(seq![s[0]] + rest =~= s);
    }
}

/// No control character, such as a line break, gets into a JSON string as it is.
pub proof fn law_json_strings_have_no_control_characters(s: Seq<char>)
    ensures
        forall|i: int| 0 <= i < json_text(s).len() ==> ' ' <= #[trigger] json_text(s)[i],
{
    lemma_no_control(s);
    assert forall|i: int| 0 <= i < json_text(s).len() implies ' ' <= #[trigger] json_text(s)[i] by {
        if 0 < i && i < json_text(s).len() - 1 {
            assert(json_text(s)[i] == json_chars(s)[i - 1]);
        }
    }
}

proof fn lemma_char_no_control(c: char)
    ensures
        forall|i: int| 0 <= i < json_char(c).len() ==> ' ' <= #[trigger] json_char(c)[i],
{
    lemma_literals();
    if c != '"' && c != '\\' && c != '\n' && c != '\r' && c != '\t' && (c as u32) < 0x20 {
        let hi = c as nat / 16;
        let lo = c as nat % 16;
        assert(json_char(c) =~= seq!['\\', 'u', '0', '0', digit(hi), digit(lo)]);
        assert(' ' <= digit(hi) && ' ' <= digit(lo));
    }
}

proof fn lemma_no_control(s: Seq<char>)
    ensures
        forall|i: int| 0 <= i < json_chars(s).len() ==> ' ' <= #[trigger] json_chars(s)[i],
    decreases s.len(),
{
    if s.len() > 0 {
        lemma_no_control(s.drop_last());
        let a = json_chars(s.drop_last());
        let w = json_char(s.last());
        lemma_char_no_control(s.last());
        assert forall|i: int| 0 <= i < json_chars(s).len() implies ' ' <= #[trigger] json_chars(
            s,
        )[i] by {
            if i < a.len() {
                assert(json_chars(s)[i] == a[i]);
            } else {
                assert(json_chars(s)[i] == w[i - a.len()]);
            }
        }
    }
}

/// A text without control characters, line breaks among them.
#[verifier::opaque]
pub open spec fn is_line(t: Seq<char>) -> bool {
    forall|i: int| 0 <= i < t.len() ==> ' ' <= #[trigger] t[i]
}

broadcast proof fn lemma_line_add(a: Seq<char>, b: Seq<char>)
    requires
        is_line(a),
        is_line(b),
    ensures
        #[trigger] is_line(a + b),
{
    reveal(is_line);
}

broadcast proof fn lemma_line_text(s: Seq<char>)
    ensures
        is_line(#[trigger] json_text(s)),
{
    reveal(is_line);
    law_json_strings_have_no_control_characters(s);
}

broadcast proof fn lemma_line_option(s: Option<Seq<char>>)
    ensures
        is_line(#[trigger] json_option(s)),
{
    broadcast use lemma_line_text;

    reveal_strlit("null");
    reveal(is_line);
}

broadcast proof fn lemma_line_bool(b: bool)
    ensures
        is_line(#[trigger] json_bool(b)),
{
    reveal_strlit("true");
    reveal_strlit("false");
    reveal(is_line);
}

proof fn lemma_line_numeral(n: nat)
    ensures
        is_line(numeral(n, 10)),
    decreases n,
{
    reveal(is_line);
    if n >= 10 {
        lemma_line_numeral(n / 10);
    }
}

broadcast proof fn lemma_line_decimal(n: nat)
    ensures
        is_line(#[trigger] decimal(n)),
{
    lemma_line_numeral(n);
}

proof fn lemma_line_join(parts: Seq<Seq<char>>)
    requires
        forall|i: int| 0 <= i < parts.len() ==> is_line(#[trigger] parts[i]),
    ensures
        is_line(join(parts, ","@)),
    decreases parts.len(),
{
    broadcast use lemma_line_add;

    reveal_strlit(",");
    assert(is_line(","@)) by {
        reveal(is_line);
    }
    if parts.len() == 0 {
        reveal(is_line);
    } else if parts.len() > 1 {
        let rest = parts.drop_last();
        assert forall|i: int| 0 <= i < rest.len() implies is_line(#[trigger] rest[i]) by {
            assert(is_line(parts[i]));
        }
        lemma_line_join(rest);
        assert(is_line(parts[parts.len() - 1]));
    }
}

/// An array of values on one line is on one line.
proof fn lemma_line_array(parts: Seq<Seq<char>>)
    requires
        forall|i: int| 0 <= i < parts.len() ==> is_line(#[trigger] parts[i]),
    ensures
        is_line(json_array(parts)),
{
    broadcast use lemma_line_add;

    reveal_strlit("[");
    reveal_strlit("]");
    assert(is_line("["@) && is_line("]"@)) by {
        reveal(is_line);
    }
    lemma_line_join(parts);
}

broadcast proof fn lemma_line_texts(list: Seq<Seq<char>>)
    ensures
        is_line(#[trigger] json_texts(list)),
{
    let parts = list.map_values(|s: Seq<char>| json_text(s));
    assert forall|i: int| 0 <= i < parts.len() implies is_line(#[trigger] parts[i]) by {
        lemma_line_text(list[i]);
    }
    lemma_line_array(parts);
}

broadcast proof fn lemma_line_chains(chains: Seq<Seq<Seq<char>>>)
    ensures
        is_line(#[trigger] json_chains(chains)),
{
    let parts = chains.map_values(|c: Seq<Seq<char>>| json_texts(c));
    assert forall|i: int| 0 <= i < parts.len() implies is_line(#[trigger] parts[i]) by {
        lemma_line_texts(chains[i]);
    }
    lemma_line_array(parts);
}

proof fn lemma_line_values<T: Json>(list: Seq<T::V>)
    requires
        forall|v: T::V| is_line(#[trigger] T::json(v)),
    ensures
        is_line(json_values::<T>(list)),
{
    lemma_line_array(list.map_values(|v: T::V| T::json(v)));
}

/// The pieces of text between the values.
proof fn lemma_line_punctuation()
    ensures
        is_line("{\"name\":"@),
        is_line(",\"resolved\":"@),
        is_line("{\"path\":"@),
        is_line(",\"executable\":"@),
        is_line(",\"format\":"@),
        is_line(",\"machine\":"@),
        is_line(",\"soname\":"@),
        is_line(",\"rpath\":"@),
        is_line(",\"runpath\":"@),
        is_line(",\"needed\":"@),
        is_line(",\"imports_dynamic_loader\":"@),
        is_line(",\"dlopen_candidates\":"@),
        is_line("{\"capability\":"@),
        is_line(",\"title\":"@),
        is_line(",\"object\":"@),
        is_line("{\"object\":"@),
        is_line(",\"symbol\":"@),
        is_line(",\"version\":"@),
        is_line(",\"confidence\":"@),
        is_line(",\"reached_via\":"@),
        is_line(",\"message\":"@),
        is_line("{\"root\":"@),
        is_line(",\"objects\":"@),
        is_line(",\"findings\":"@),
        is_line(",\"errors\":"@),
        is_line(",\"evidence\":"@),
        is_line("{\"added\":"@),
        is_line(",\"added\":"@),
        is_line(",\"removed\":"@),
        is_line(",\"changed\":"@),
        is_line("}"@),
        "}\n"@ == "}"@.push('\n'),
{
    reveal(is_line);
    reveal_strlit("{\"name\":");
    reveal_strlit(",\"resolved\":");
    reveal_strlit("{\"path\":");
    reveal_strlit(",\"executable\":");
    reveal_strlit(",\"format\":");
    reveal_strlit(",\"machine\":");
    reveal_strlit(",\"soname\":");
    reveal_strlit(",\"rpath\":");
    reveal_strlit(",\"runpath\":");
    reveal_strlit(",\"needed\":");
    reveal_strlit(",\"imports_dynamic_loader\":");
    reveal_strlit(",\"dlopen_candidates\":");
    reveal_strlit("{\"capability\":");
    reveal_strlit(",\"title\":");
    reveal_strlit(",\"object\":");
    reveal_strlit("{\"object\":");
    reveal_strlit(",\"symbol\":");
    reveal_strlit(",\"version\":");
    reveal_strlit(",\"confidence\":");
    reveal_strlit(",\"reached_via\":");
    reveal_strlit(",\"message\":");
    reveal_strlit("{\"root\":");
    reveal_strlit(",\"objects\":");
    reveal_strlit(",\"findings\":");
    reveal_strlit(",\"errors\":");
    reveal_strlit(",\"evidence\":");
    reveal_strlit("{\"added\":");
    reveal_strlit(",\"added\":");
    reveal_strlit(",\"removed\":");
    reveal_strlit(",\"changed\":");
    reveal_strlit("}");
    reveal_strlit("}\n");
    assert("}\n"@ =~= "}"@.push('\n'));
}

proof fn lemma_line_objects()
    ensures
        forall|v: NeededModel| is_line(#[trigger] NeededReport::json(v)),
        forall|v: ObjectReportModel| is_line(#[trigger] ObjectReport::json(v)),
{
    broadcast use {
        lemma_line_add,
        lemma_line_text,
        lemma_line_option,
        lemma_line_bool,
        lemma_line_decimal,
        lemma_line_texts,
    };

    lemma_line_punctuation();
    assert forall|v: NeededModel| is_line(#[trigger] NeededReport::json(v)) by {}
    assert forall|v: ObjectReportModel| is_line(#[trigger] ObjectReport::json(v)) by {
        lemma_line_values::<NeededReport>(v.needed);
    }
}

proof fn lemma_line_findings()
    ensures
        forall|v: FindingModel| is_line(#[trigger] Finding::json(v)),
        forall|v: FileErrorModel| is_line(#[trigger] FileError::json(v)),
{
    broadcast use {lemma_line_add, lemma_line_text, lemma_line_option, lemma_line_chains};

    lemma_line_punctuation();
    assert forall|v: FindingModel| is_line(#[trigger] Finding::json(v)) by {}
    assert forall|v: FileErrorModel| is_line(#[trigger] FileError::json(v)) by {}
}

/// A report in JSON is a single line, ended by a line break: no other character of it
/// is a control character.
pub proof fn law_report_json_is_one_line(r: ReportModel)
    ensures
        report_as_json(r).len() > 0,
        report_as_json(r).last() == '\n',
        is_line(report_as_json(r).drop_last()),
{
    broadcast use {lemma_line_add, lemma_line_text};

    lemma_line_punctuation();
    lemma_line_objects();
    lemma_line_findings();
    lemma_line_values::<ObjectReport>(r.objects);
    lemma_line_values::<Finding>(r.findings);
    lemma_line_values::<FileError>(r.errors);
    let body = "{\"root\":"@ + json_text(r.root) + ",\"objects\":"@ + json_values::<ObjectReport>(
        r.objects,
    ) + ",\"findings\":"@ + json_values::<Finding>(r.findings) + ",\"errors\":"@ + json_values::<
        FileError,
    >(r.errors);
    assert(is_line(body + "}"@));
    assert(report_as_json(r).drop_last() =~= body + "}"@);
}

proof fn lemma_line_changes()
    ensures
        forall|v: KeyModel| is_line(#[trigger] EvidenceKey::json(v)),
        forall|v: ChangeModel| is_line(#[trigger] CapabilityChange::json(v)),
        forall|v: EvidenceChangeModel| is_line(#[trigger] EvidenceChange::json(v)),
{
    broadcast use {lemma_line_add, lemma_line_text};

    lemma_line_punctuation();
    assert forall|v: KeyModel| is_line(#[trigger] EvidenceKey::json(v)) by {}
    assert forall|v: ChangeModel| is_line(#[trigger] CapabilityChange::json(v)) by {
        lemma_line_values::<EvidenceKey>(v.evidence);
    }
    assert forall|v: EvidenceChangeModel| is_line(#[trigger] EvidenceChange::json(v)) by {
        lemma_line_values::<EvidenceKey>(v.added);
        lemma_line_values::<EvidenceKey>(v.removed);
    }
}

/// A comparison in JSON is a single line, ended by a line break: no other character of
/// it is a control character.
pub proof fn law_diff_json_is_one_line(d: DiffModel)
    ensures
        diff_as_json(d).len() > 0,
        diff_as_json(d).last() == '\n',
        is_line(diff_as_json(d).drop_last()),
{
    broadcast use lemma_line_add;

    lemma_line_punctuation();
    lemma_line_changes();
    lemma_line_values::<CapabilityChange>(d.added);
    lemma_line_values::<CapabilityChange>(d.removed);
    lemma_line_values::<EvidenceChange>(d.changed);
    let body = "{\"added\":"@ + json_values::<CapabilityChange>(d.added) + ",\"removed\":"@
        + json_values::<CapabilityChange>(d.removed) + ",\"changed\":"@ + json_values::<
        EvidenceChange,
    >(d.changed);
    assert(is_line(body + "}"@));
    assert(diff_as_json(d).drop_last() =~= body + "}"@);
}

} // verus!
