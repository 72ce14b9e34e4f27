//! What reports and comparisons are as JSON values, and that nothing of them is lost
//! in JSON.

use crate::analysis::{confidence_text, Confidence};
use crate::diff::{
    CapabilityChange, ChangeModel, DiffModel, EvidenceChange, EvidenceChangeModel, EvidenceKey,
    KeyModel,
};
use crate::json_laws::{
    fields_written, items_written, json_written, law_json_is_unambiguous, JsonValue,
};
use crate::output::{
    diff_as_json, json_array, json_bool, json_chains, json_char, json_chars, json_option, json_text,
    json_texts, json_values, report_as_json, Json,
};
use crate::print_laws::confidence_word;
use crate::scan::{
    FileError, FileErrorModel, Finding, FindingModel, NeededModel, NeededReport, ObjectReport,
    ObjectReportModel, ReportModel,
};
use crate::text::{decimal, join};
use vstd::prelude::*;

verus! {

/// A text that may be missing, as a JSON value.
pub open spec fn option_value(s: Option<Seq<char>>) -> JsonValue {
    match s {
        Some(t) => JsonValue::Text(t),
        None => JsonValue::Null,
    }
}

/// A list of texts as a JSON value.
pub open spec fn texts_value(list: Seq<Seq<char>>) -> JsonValue {
    JsonValue::List(list.map_values(|s: Seq<char>| JsonValue::Text(s)))
}

/// A dependency as a JSON value.
pub open spec fn needed_value(v: NeededModel) -> JsonValue {
    JsonValue::Object(
        seq![
            ("name"@, JsonValue::Text(v.name)),
            ("resolved"@, option_value(v.resolved)),
        ],
    )
}

/// What a report says about an object as a JSON value.
pub open spec fn object_value(v: ObjectReportModel) -> JsonValue {
    JsonValue::Object(
        seq![
            ("path"@, JsonValue::Text(v.path)),
            ("executable"@, JsonValue::Flag(v.executable)),
            ("format"@, JsonValue::Text(v.format)),
            ("machine"@, JsonValue::Number(v.machine as nat)),
            ("soname"@, option_value(v.soname)),
            ("rpath"@, option_value(v.rpath)),
            ("runpath"@, option_value(v.runpath)),
            ("needed"@, JsonValue::List(v.needed.map_values(|x: NeededModel| needed_value(x)))),
            ("imports_dynamic_loader"@, JsonValue::Flag(v.imports_dynamic_loader)),
            ("dlopen_candidates"@, texts_value(v.dlopen_candidates)),
        ],
    )
}

/// A finding as a JSON value.
pub open spec fn finding_value(v: FindingModel) -> JsonValue {
    JsonValue::Object(
        seq![
            ("capability"@, JsonValue::Text(v.capability)),
            ("title"@, JsonValue::Text(v.title)),
            ("object"@, JsonValue::Text(v.object)),
            ("symbol"@, JsonValue::Text(v.symbol)),
            ("version"@, option_value(v.version)),
            ("confidence"@, JsonValue::Text(confidence_word(v.confidence))),
            (
                "reached_via"@,
                JsonValue::List(v.reached_via.map_values(|x: Seq<Seq<char>>| texts_value(x))),
            ),
        ],
    )
}

/// A file that could not be loaded as a JSON value.
pub open spec fn error_value(v: FileErrorModel) -> JsonValue {
    JsonValue::Object(
        seq![
            ("path"@, JsonValue::Text(v.path)),
            ("message"@, JsonValue::Text(v.message)),
        ],
    )
}

/// A report as a JSON value.
pub open spec fn report_value(v: ReportModel) -> JsonValue {
    JsonValue::Object(
        seq![
            ("root"@, JsonValue::Text(v.root)),
            (
                "objects"@,
                JsonValue::List(v.objects.map_values(|x: ObjectReportModel| object_value(x))),
            ),
            (
                "findings"@,
                JsonValue::List(v.findings.map_values(|x: FindingModel| finding_value(x))),
            ),
            ("errors"@, JsonValue::List(v.errors.map_values(|x: FileErrorModel| error_value(x)))),
        ],
    )
}

/// A piece of evidence as a JSON value.
pub open spec fn key_value(v: KeyModel) -> JsonValue {
    JsonValue::Object(
        seq![
            ("object"@, JsonValue::Text(v.object)),
            ("symbol"@, JsonValue::Text(v.symbol)),
            ("confidence"@, JsonValue::Text(confidence_word(v.confidence))),
        ],
    )
}

/// A capability that was added or removed as a JSON value.
pub open spec fn change_value(v: ChangeModel) -> JsonValue {
    JsonValue::Object(
        seq![
            ("capability"@, JsonValue::Text(v.capability)),
            ("title"@, JsonValue::Text(v.title)),
            ("evidence"@, JsonValue::List(v.evidence.map_values(|x: KeyModel| key_value(x)))),
        ],
    )
}

/// A capability whose evidence changed as a JSON value.
pub open spec fn altered_value(v: EvidenceChangeModel) -> JsonValue {
    JsonValue::Object(
        seq![
            ("capability"@, JsonValue::Text(v.capability)),
            ("title"@, JsonValue::Text(v.title)),
            ("added"@, JsonValue::List(v.added.map_values(|x: KeyModel| key_value(x)))),
            ("removed"@, JsonValue::List(v.removed.map_values(|x: KeyModel| key_value(x)))),
        ],
    )
}

/// A comparison as a JSON value.
pub open spec fn diff_value(v: DiffModel) -> JsonValue {
    JsonValue::Object(
        seq![
            ("added"@, JsonValue::List(v.added.map_values(|x: ChangeModel| change_value(x)))),
            ("removed"@, JsonValue::List(v.removed.map_values(|x: ChangeModel| change_value(x)))),
            (
                "changed"@,
                JsonValue::List(v.changed.map_values(|x: EvidenceChangeModel| altered_value(x))),
            ),
        ],
    )
}

/// A key that opens an object, as it is written.
#[verifier::opaque]
pub open spec fn first_key(key: Seq<char>) -> Seq<char> {
    seq!['{'] + json_text(key) + seq![':']
}

/// A key that follows another field, as it is written.
#[verifier::opaque]
pub open spec fn next_key(key: Seq<char>) -> Seq<char> {
    seq![','] + json_text(key) + seq![':']
}

/// A text of characters that need no escape.
spec fn is_plain(s: Seq<char>) -> bool {
    forall|i: int| 0 <= i < s.len() ==> json_char(#[trigger] s[i]) == seq![s[i]]
}

proof fn lemma_plain(s: Seq<char>)
    requires
        is_plain(s),
    ensures
        json_chars(s) == s,
    decreases s.len(),
{
    if s.len() > 0 {
        let t = s.drop_last();
        assert forall|i: int| 0 <= i < t.len() implies json_char(#[trigger] t[i]) == seq![t[i]] by {
            assert(json_char(s[i]) == seq![s[i]]);
        }
        lemma_plain(t);
        assert(json_chars(s) =~= s);
    } else {
        assert(s =~= Seq::<char>::empty());
    }
}

proof fn lemma_first_keys()
    ensures
        "{\"name\":"@ == first_key("name"@),
        "{\"path\":"@ == first_key("path"@),
        "{\"capability\":"@ == first_key("capability"@),
        "{\"root\":"@ == first_key("root"@),
        "{\"object\":"@ == first_key("object"@),
        "{\"added\":"@ == first_key("added"@),
{
    reveal(first_key);
    assert("{\"name\":"@ == first_key("name"@)) by {
        reveal_strlit("name");
        reveal_strlit("{\"name\":");
        lemma_plain("name"@);
        assert("{\"name\":"@ =~= first_key("name"@));
    }
    assert("{\"path\":"@ == first_key("path"@)) by {
        reveal_strlit("path");
        reveal_strlit("{\"path\":");
        lemma_plain("path"@);
        assert("{\"path\":"@ =~= first_key("path"@));
    }
    assert("{\"capability\":"@ == first_key("capability"@)) by {
        reveal_strlit("capability");
        reveal_strlit("{\"capability\":");
        lemma_plain("capability"@);
        assert("{\"capability\":"@ =~= first_key("capability"@));
    }
    assert("{\"root\":"@ == first_key("root"@)) by {
        reveal_strlit("root");
        reveal_strlit("{\"root\":");
        lemma_plain("root"@);
        assert("{\"root\":"@ =~= first_key("root"@));
    }
    assert("{\"object\":"@ == first_key("object"@)) by {
        reveal_strlit("object");
        reveal_strlit("{\"object\":");
        lemma_plain("object"@);
        assert("{\"object\":"@ =~= first_key("object"@));
    }
    assert("{\"added\":"@ == first_key("added"@)) by {
        reveal_strlit("added");
        reveal_strlit("{\"added\":");
        lemma_plain("added"@);
        assert("{\"added\":"@ =~= first_key("added"@));
    }
}

proof fn lemma_next_keys()
    ensures
        ",\"resolved\":"@ == next_key("resolved"@),
        ",\"executable\":"@ == next_key("executable"@),
        ",\"format\":"@ == next_key("format"@),
        ",\"machine\":"@ == next_key("machine"@),
        ",\"soname\":"@ == next_key("soname"@),
        ",\"rpath\":"@ == next_key("rpath"@),
        ",\"runpath\":"@ == next_key("runpath"@),
        ",\"needed\":"@ == next_key("needed"@),
        ",\"imports_dynamic_loader\":"@ == next_key("imports_dynamic_loader"@),
{
    reveal(next_key);
    assert(",\"resolved\":"@ == next_key("resolved"@)) by {
        reveal_strlit("resolved");
        reveal_strlit(",\"resolved\":");
        lemma_plain("resolved"@);
        assert(",\"resolved\":"@ =~= next_key("resolved"@));
    }
    assert(",\"executable\":"@ == next_key("executable"@)) by {
        reveal_strlit("executable");
        reveal_strlit(",\"executable\":");
        lemma_plain("executable"@);
        assert(",\"executable\":"@ =~= next_key("executable"@));
    }
    assert(",\"format\":"@ == next_key("format"@)) by {
        reveal_strlit("format");
        reveal_strlit(",\"format\":");
        lemma_plain("format"@);
        assert(",\"format\":"@ =~= next_key("format"@));
    }
    assert(",\"machine\":"@ == next_key("machine"@)) by {
        reveal_strlit("machine");
        reveal_strlit(",\"machine\":");
        lemma_plain("machine"@);
        assert(",\"machine\":"@ =~= next_key("machine"@));
    }
    assert(",\"soname\":"@ == next_key("soname"@)) by {
        reveal_strlit("soname");
        reveal_strlit(",\"soname\":");
        lemma_plain("soname"@);
        assert(",\"soname\":"@ =~= next_key("soname"@));
    }
    assert(",\"rpath\":"@ == next_key("rpath"@)) by {
        reveal_strlit("rpath");
        reveal_strlit(",\"rpath\":");
        lemma_plain("rpath"@);
        assert(",\"rpath\":"@ =~= next_key("rpath"@));
    }
    assert(",\"runpath\":"@ == next_key("runpath"@)) by {
        reveal_strlit("runpath");
        reveal_strlit(",\"runpath\":");
        lemma_plain("runpath"@);
        assert(",\"runpath\":"@ =~= next_key("runpath"@));
    }
    assert(",\"needed\":"@ == next_key("needed"@)) by {
        reveal_strlit("needed");
        reveal_strlit(",\"needed\":");
        lemma_plain("needed"@);
        assert(",\"needed\":"@ =~= next_key("needed"@));
    }
    assert(",\"imports_dynamic_loader\":"@ == next_key("imports_dynamic_loader"@)) by {
        reveal_strlit("imports_dynamic_loader");
        reveal_strlit(",\"imports_dynamic_loader\":");
        lemma_plain("imports_dynamic_loader"@);
        assert(",\"imports_dynamic_loader\":"@ =~= next_key("imports_dynamic_loader"@));
    }
}

proof fn lemma_more_keys()
    ensures
        ",\"dlopen_candidates\":"@ == next_key("dlopen_candidates"@),
        ",\"title\":"@ == next_key("title"@),
        ",\"object\":"@ == next_key("object"@),
        ",\"symbol\":"@ == next_key("symbol"@),
        ",\"version\":"@ == next_key("version"@),
        ",\"confidence\":"@ == next_key("confidence"@),
        ",\"reached_via\":"@ == next_key("reached_via"@),
        ",\"message\":"@ == next_key("message"@),
        ",\"objects\":"@ == next_key("objects"@),
{
    reveal(next_key);
    assert(",\"dlopen_candidates\":"@ == next_key("dlopen_candidates"@)) by {
        reveal_strlit("dlopen_candidates");
        reveal_strlit(",\"dlopen_candidates\":");
        lemma_plain("dlopen_candidates"@);
        assert(",\"dlopen_candidates\":"@ =~= next_key("dlopen_candidates"@));
    }
    assert(",\"title\":"@ == next_key("title"@)) by {
        reveal_strlit("title");
        reveal_strlit(",\"title\":");
        lemma_plain("title"@);
        assert(",\"title\":"@ =~= next_key("title"@));
    }
    assert(",\"object\":"@ == next_key("object"@)) by {
        reveal_strlit("object");
        reveal_strlit(",\"object\":");
        lemma_plain("object"@);
        assert(",\"object\":"@ =~= next_key("object"@));
    }
    assert(",\"symbol\":"@ == next_key("symbol"@)) by {
        reveal_strlit("symbol");
        reveal_strlit(",\"symbol\":");
        lemma_plain("symbol"@);
        assert(",\"symbol\":"@ =~= next_key("symbol"@));
    }
    assert(",\"version\":"@ == next_key("version"@)) by {
        reveal_strlit("version");
        reveal_strlit(",\"version\":");
        lemma_plain("version"@);
        assert(",\"version\":"@ =~= next_key("version"@));
    }
    assert(",\"confidence\":"@ == next_key("confidence"@)) by {
        reveal_strlit("confidence");
        reveal_strlit(",\"confidence\":");
        lemma_plain("confidence"@);
        assert(",\"confidence\":"@ =~= next_key("confidence"@));
    }
    assert(",\"reached_via\":"@ == next_key("reached_via"@)) by {
        reveal_strlit("reached_via");
        reveal_strlit(",\"reached_via\":");
        lemma_plain("reached_via"@);
        assert(",\"reached_via\":"@ =~= next_key("reached_via"@));
    }
    assert(",\"message\":"@ == next_key("message"@)) by {
        reveal_strlit("message");
        reveal_strlit(",\"message\":");
        lemma_plain("message"@);
        assert(",\"message\":"@ =~= next_key("message"@));
    }
    assert(",\"objects\":"@ == next_key("objects"@)) by {
        reveal_strlit("objects");
        reveal_strlit(",\"objects\":");
        lemma_plain("objects"@);
        assert(",\"objects\":"@ =~= next_key("objects"@));
    }
}

proof fn lemma_last_keys()
    ensures
        ",\"findings\":"@ == next_key("findings"@),
        ",\"errors\":"@ == next_key("errors"@),
        ",\"evidence\":"@ == next_key("evidence"@),
        ",\"added\":"@ == next_key("added"@),
        ",\"removed\":"@ == next_key("removed"@),
        ",\"changed\":"@ == next_key("changed"@),
{
    reveal(next_key);
    assert(",\"findings\":"@ == next_key("findings"@)) by {
        reveal_strlit("findings");
        reveal_strlit(",\"findings\":");
        lemma_plain("findings"@);
        assert(",\"findings\":"@ =~= next_key("findings"@));
    }
    assert(",\"errors\":"@ == next_key("errors"@)) by {
        reveal_strlit("errors");
        reveal_strlit(",\"errors\":");
        lemma_plain("errors"@);
        assert(",\"errors\":"@ =~= next_key("errors"@));
    }
    assert(",\"evidence\":"@ == next_key("evidence"@)) by {
        reveal_strlit("evidence");
        reveal_strlit(",\"evidence\":");
        lemma_plain("evidence"@);
        assert(",\"evidence\":"@ =~= next_key("evidence"@));
    }
    assert(",\"added\":"@ == next_key("added"@)) by {
        reveal_strlit("added");
        reveal_strlit(",\"added\":");
        lemma_plain("added"@);
        assert(",\"added\":"@ =~= next_key("added"@));
    }
    assert(",\"removed\":"@ == next_key("removed"@)) by {
        reveal_strlit("removed");
        reveal_strlit(",\"removed\":");
        lemma_plain("removed"@);
        assert(",\"removed\":"@ =~= next_key("removed"@));
    }
    assert(",\"changed\":"@ == next_key("changed"@)) by {
        reveal_strlit("changed");
        reveal_strlit(",\"changed\":");
        lemma_plain("changed"@);
        assert(",\"changed\":"@ =~= next_key("changed"@));
    }
}

/// The first `n` fields of an object, with the brace that opens it.
spec fn fields_upto(fields: Seq<(Seq<char>, JsonValue)>, n: int) -> Seq<char>
    decreases n,
{
    if n <= 1 {
        first_key(fields[0].0) + json_written(fields[0].1)
    } else {
        fields_upto(fields, n - 1) + next_key(fields[n - 1].0) + json_written(fields[n - 1].1)
    }
}

proof fn lemma_fields_upto(fields: Seq<(Seq<char>, JsonValue)>, n: int)
    requires
        1 <= n <= fields.len(),
    ensures
        seq!['{'] + fields_written(fields, 0) == fields_upto(fields, n) + (if n == fields.len() {
            Seq::<char>::empty()
        } else {
            seq![','] + fields_written(fields, n)
        }),
    decreases n,
{
    reveal(first_key);
    reveal(next_key);
    let whole = seq!['{'] + fields_written(fields, 0);
    if n == 1 {
        assert(whole =~= fields_upto(fields, 1) + (if n == fields.len() {
            Seq::<char>::empty()
        } else {
            seq![','] + fields_written(fields, 1)
        }));
    } else {
        lemma_fields_upto(fields, n - 1);
        assert(whole =~= fields_upto(fields, n) + (if n == fields.len() {
            Seq::<char>::empty()
        } else {
            seq![','] + fields_written(fields, n)
        }));
    }
}

proof fn lemma_object(fields: Seq<(Seq<char>, JsonValue)>)
    requires
        fields.len() > 0,
    ensures
        json_written(JsonValue::Object(fields)) == fields_upto(fields, fields.len() as int)
            + "}"@,
{
    reveal_strlit("}");
    lemma_fields_upto(fields, fields.len() as int);
    assert("}"@ =~= seq!['}']);
    assert(json_written(JsonValue::Object(fields)) =~= fields_upto(fields, fields.len() as int)
        + "}"@);
}

/// Written items joined by commas are a written list.
proof fn lemma_joined(parts: Seq<Seq<char>>, items: Seq<JsonValue>, i: int)
    requires
        0 <= i < parts.len(),
        parts.len() == items.len(),
        forall|k: int| 0 <= k < parts.len() ==> #[trigger] parts[k] == json_written(items[k]),
    ensures
        join(parts, ","@) == (if i == 0 {
            Seq::<char>::empty()
        } else {
            join(parts.take(i), ","@) + ","@
        }) + items_written(items, i),
    decreases parts.len() - i,
{
    let comma = ","@;
    reveal_strlit(",");
    assert(comma =~= seq![',']);
    if i + 1 == parts.len() {
        if i == 0 {
            assert(join(parts, comma) =~= Seq::<char>::empty() + items_written(items, 0));
        } else {
            assert(parts.drop_last() =~= parts.take(i));
        }
    } else {
        lemma_joined(parts, items, i + 1);
        let front = parts.take(i + 1);
        assert(front.drop_last() =~= parts.take(i));
        assert(front.last() == parts[i]);
        let a = if i == 0 {
            Seq::<char>::empty()
        } else {
            join(parts.take(i), comma) + comma
        };
        assert(join(front, comma) =~= a + parts[i]);
        assert(join(parts, comma) =~= a + items_written(items, i));
    }
}

proof fn lemma_list<V>(
    list: Seq<V>,
    json: spec_fn(V) -> Seq<char>,
    value: spec_fn(V) -> JsonValue,
)
    requires
        forall|i: int|
            0 <= i < list.len() ==> json(#[trigger] list[i]) == json_written(value(list[i])),
    ensures
        json_array(list.map_values(json)) == json_written(JsonValue::List(list.map_values(value))),
{
    reveal_strlit("[");
    reveal_strlit("]");
    assert("["@ =~= seq!['[']);
    assert("]"@ =~= seq![']']);
    let parts = list.map_values(json);
    let items = list.map_values(value);
    if list.len() > 0 {
        lemma_joined(parts, items, 0);
        assert(join(parts, ","@) =~= items_written(items, 0));
    }
}

proof fn lemma_texts(list: Seq<Seq<char>>)
    ensures
        json_texts(list) == json_written(texts_value(list)),
{
    lemma_list(list, |s: Seq<char>| json_text(s), |s: Seq<char>| JsonValue::Text(s));
}

proof fn lemma_option(s: Option<Seq<char>>)
    ensures
        json_option(s) == json_written(option_value(s)),
{
}

proof fn lemma_needed_value(v: NeededModel)
    ensures
        NeededReport::json(v) == json_written(needed_value(v)),
{
    lemma_first_keys();
    lemma_next_keys();
    lemma_more_keys();
    lemma_last_keys();
    lemma_option(v.resolved);
    let fields = needed_value(v)->Object_0;
    let p1 = "{\"name\":"@ + json_text(v.name);
    assert(fields_upto(fields, 1) == p1);
    let p2 = p1 + ",\"resolved\":"@ + json_option(v.resolved);
    assert(fields_upto(fields, 2) == p2);
    lemma_object(fields);
}

proof fn lemma_needed_values(list: Seq<NeededModel>)
    ensures
        json_values::<NeededReport>(list) == json_written(
            JsonValue::List(list.map_values(|x: NeededModel| needed_value(x))),
        ),
{
    assert forall|i: int| 0 <= i < list.len() implies NeededReport::json(#[trigger] list[i])
        == json_written(needed_value(list[i])) by {
        lemma_needed_value(list[i]);
    }
    let json = |x: NeededModel| NeededReport::json(x);
    lemma_list(list, json, |x: NeededModel| needed_value(x));
    assert(json_values::<NeededReport>(list) == json_array(list.map_values(json))) by {
        assert(list.map_values(|x: <NeededReport as View>::V| NeededReport::json(x))
            =~= list.map_values(json));
    }
}

proof fn lemma_object_value(v: ObjectReportModel)
    ensures
        ObjectReport::json(v) == json_written(object_value(v)),
{
    lemma_first_keys();
    lemma_next_keys();
    lemma_more_keys();
    lemma_last_keys();
    lemma_option(v.soname);
    lemma_option(v.rpath);
    lemma_option(v.runpath);
    lemma_needed_values(v.needed);
    lemma_texts(v.dlopen_candidates);
    let fields = object_value(v)->Object_0;
    let p1 = "{\"path\":"@ + json_text(v.path);
    assert(fields_upto(fields, 1) == p1);
    let p2 = p1 + ",\"executable\":"@ + json_bool(v.executable);
    assert(fields_upto(fields, 2) == p2);
    let p3 = p2 + ",\"format\":"@ + json_text(v.format);
    assert(fields_upto(fields, 3) == p3);
    let p4 = p3 + ",\"machine\":"@ + decimal(v.machine as nat);
    assert(fields_upto(fields, 4) == p4);
    let p5 = p4 + ",\"soname\":"@ + json_option(v.soname);
    assert(fields_upto(fields, 5) == p5);
    let p6 = p5 + ",\"rpath\":"@ + json_option(v.rpath);
    assert(fields_upto(fields, 6) == p6);
    let p7 = p6 + ",\"runpath\":"@ + json_option(v.runpath);
    assert(fields_upto(fields, 7) == p7);
    let p8 = p7 + ",\"needed\":"@ + json_values::<NeededReport>(v.needed);
    assert(fields_upto(fields, 8) == p8);
    let p9 = p8 + ",\"imports_dynamic_loader\":"@ + json_bool(v.imports_dynamic_loader);
    assert(fields_upto(fields, 9) == p9);
    let p10 = p9 + ",\"dlopen_candidates\":"@ + json_texts(v.dlopen_candidates);
    assert(fields_upto(fields, 10) == p10);
    lemma_object(fields);
}

proof fn lemma_object_values(list: Seq<ObjectReportModel>)
    ensures
        json_values::<ObjectReport>(list) == json_written(
            JsonValue::List(list.map_values(|x: ObjectReportModel| object_value(x))),
        ),
{
    assert forall|i: int| 0 <= i < list.len() implies ObjectReport::json(#[trigger] list[i])
        == json_written(object_value(list[i])) by {
        lemma_object_value(list[i]);
    }
    let json = |x: ObjectReportModel| ObjectReport::json(x);
    lemma_list(list, json, |x: ObjectReportModel| object_value(x));
    assert(json_values::<ObjectReport>(list) == json_array(list.map_values(json))) by {
        assert(list.map_values(|x: <ObjectReport as View>::V| ObjectReport::json(x))
            =~= list.map_values(json));
    }
}

proof fn lemma_finding_value(v: FindingModel)
    ensures
        Finding::json(v) == json_written(finding_value(v)),
{
    lemma_first_keys();
    lemma_next_keys();
    lemma_more_keys();
    lemma_last_keys();
    lemma_option(v.version);
    assert forall|i: int| 0 <= i < v.reached_via.len() implies
        json_texts(#[trigger] v.reached_via[i])
        == json_written(texts_value(v.reached_via[i])) by {
        lemma_texts(v.reached_via[i]);
    }
    lemma_list(
        v.reached_via,
        |c: Seq<Seq<char>>| json_texts(c),
        |x: Seq<Seq<char>>| texts_value(x),
    );
    let fields = finding_value(v)->Object_0;
    let p1 = "{\"capability\":"@ + json_text(v.capability);
    assert(fields_upto(fields, 1) == p1);
    let p2 = p1 + ",\"title\":"@ + json_text(v.title);
    assert(fields_upto(fields, 2) == p2);
    let p3 = p2 + ",\"object\":"@ + json_text(v.object);
    assert(fields_upto(fields, 3) == p3);
    let p4 = p3 + ",\"symbol\":"@ + json_text(v.symbol);
    assert(fields_upto(fields, 4) == p4);
    let p5 = p4 + ",\"version\":"@ + json_option(v.version);
    assert(fields_upto(fields, 5) == p5);
    let p6 = p5 + ",\"confidence\":"@ + json_text(confidence_text(v.confidence)@);
    assert(fields_upto(fields, 6) == p6);
    let p7 = p6 + ",\"reached_via\":"@ + json_chains(v.reached_via);
    assert(fields_upto(fields, 7) == p7);
    lemma_object(fields);
}

proof fn lemma_finding_values(list: Seq<FindingModel>)
    ensures
        json_values::<Finding>(list) == json_written(
            JsonValue::List(list.map_values(|x: FindingModel| finding_value(x))),
        ),
{
    assert forall|i: int| 0 <= i < list.len() implies Finding::json(#[trigger] list[i])
        == json_written(finding_value(list[i])) by {
        lemma_finding_value(list[i]);
    }
    let json = |x: FindingModel| Finding::json(x);
    lemma_list(list, json, |x: FindingModel| finding_value(x));
    assert(json_values::<Finding>(list) == json_array(list.map_values(json))) by {
        assert(list.map_values(|x: <Finding as View>::V| Finding::json(x)) =~= list.map_values(
            json,
        ));
    }
}

proof fn lemma_error_value(v: FileErrorModel)
    ensures
        FileError::json(v) == json_written(error_value(v)),
{
    lemma_first_keys();
    lemma_next_keys();
    lemma_more_keys();
    lemma_last_keys();
    let fields = error_value(v)->Object_0;
    let p1 = "{\"path\":"@ + json_text(v.path);
    assert(fields_upto(fields, 1) == p1);
    let p2 = p1 + ",\"message\":"@ + json_text(v.message);
    assert(fields_upto(fields, 2) == p2);
    lemma_object(fields);
}

proof fn lemma_error_values(list: Seq<FileErrorModel>)
    ensures
        json_values::<FileError>(list) == json_written(
            JsonValue::List(list.map_values(|x: FileErrorModel| error_value(x))),
        ),
{
    assert forall|i: int| 0 <= i < list.len() implies FileError::json(#[trigger] list[i])
        == json_written(error_value(list[i])) by {
        lemma_error_value(list[i]);
    }
    let json = |x: FileErrorModel| FileError::json(x);
    lemma_list(list, json, |x: FileErrorModel| error_value(x));
    assert(json_values::<FileError>(list) == json_array(list.map_values(json))) by {
        assert(list.map_values(|x: <FileError as View>::V| FileError::json(x)) =~= list.map_values(
            json,
        ));
    }
}

proof fn lemma_key_value(v: KeyModel)
    ensures
        EvidenceKey::json(v) == json_written(key_value(v)),
{
    lemma_first_keys();
    lemma_next_keys();
    lemma_more_keys();
    lemma_last_keys();
    let fields = key_value(v)->Object_0;
    let p1 = "{\"object\":"@ + json_text(v.object);
    assert(fields_upto(fields, 1) == p1);
    let p2 = p1 + ",\"symbol\":"@ + json_text(v.symbol);
    assert(fields_upto(fields, 2) == p2);
    let p3 = p2 + ",\"confidence\":"@ + json_text(confidence_text(v.confidence)@);
    assert(fields_upto(fields, 3) == p3);
    lemma_object(fields);
}

proof fn lemma_key_values(list: Seq<KeyModel>)
    ensures
        json_values::<EvidenceKey>(list) == json_written(
            JsonValue::List(list.map_values(|x: KeyModel| key_value(x))),
        ),
{
    assert forall|i: int| 0 <= i < list.len() implies EvidenceKey::json(#[trigger] list[i])
        == json_written(key_value(list[i])) by {
        lemma_key_value(list[i]);
    }
    let json = |x: KeyModel| EvidenceKey::json(x);
    lemma_list(list, json, |x: KeyModel| key_value(x));
    assert(json_values::<EvidenceKey>(list) == json_array(list.map_values(json))) by {
        assert(list.map_values(|x: <EvidenceKey as View>::V| EvidenceKey::json(x))
            =~= list.map_values(json));
    }
}

proof fn lemma_change_value(v: ChangeModel)
    ensures
        CapabilityChange::json(v) == json_written(change_value(v)),
{
    lemma_first_keys();
    lemma_next_keys();
    lemma_more_keys();
    lemma_last_keys();
    lemma_key_values(v.evidence);
    let fields = change_value(v)->Object_0;
    let p1 = "{\"capability\":"@ + json_text(v.capability);
    assert(fields_upto(fields, 1) == p1);
    let p2 = p1 + ",\"title\":"@ + json_text(v.title);
    assert(fields_upto(fields, 2) == p2);
    let p3 = p2 + ",\"evidence\":"@ + json_values::<EvidenceKey>(v.evidence);
    assert(fields_upto(fields, 3) == p3);
    lemma_object(fields);
}

proof fn lemma_change_values(list: Seq<ChangeModel>)
    ensures
        json_values::<CapabilityChange>(list) == json_written(
            JsonValue::List(list.map_values(|x: ChangeModel| change_value(x))),
        ),
{
    assert forall|i: int| 0 <= i < list.len() implies CapabilityChange::json(#[trigger] list[i])
        == json_written(change_value(list[i])) by {
        lemma_change_value(list[i]);
    }
    let json = |x: ChangeModel| CapabilityChange::json(x);
    lemma_list(list, json, |x: ChangeModel| change_value(x));
    assert(json_values::<CapabilityChange>(list) == json_array(list.map_values(json))) by {
        assert(list.map_values(|x: <CapabilityChange as View>::V| CapabilityChange::json(x))
            =~= list.map_values(json));
    }
}

proof fn lemma_altered_value(v: EvidenceChangeModel)
    ensures
        EvidenceChange::json(v) == json_written(altered_value(v)),
{
    lemma_first_keys();
    lemma_next_keys();
    lemma_more_keys();
    lemma_last_keys();
    lemma_key_values(v.added);
    lemma_key_values(v.removed);
    let fields = altered_value(v)->Object_0;
    let p1 = "{\"capability\":"@ + json_text(v.capability);
    assert(fields_upto(fields, 1) == p1);
    let p2 = p1 + ",\"title\":"@ + json_text(v.title);
    assert(fields_upto(fields, 2) == p2);
    let p3 = p2 + ",\"added\":"@ + json_values::<EvidenceKey>(v.added);
    assert(fields_upto(fields, 3) == p3);
    let p4 = p3 + ",\"removed\":"@ + json_values::<EvidenceKey>(v.removed);
    assert(fields_upto(fields, 4) == p4);
    lemma_object(fields);
}

proof fn lemma_altered_values(list: Seq<EvidenceChangeModel>)
    ensures
        json_values::<EvidenceChange>(list) == json_written(
            JsonValue::List(list.map_values(|x: EvidenceChangeModel| altered_value(x))),
        ),
{
    assert forall|i: int| 0 <= i < list.len() implies EvidenceChange::json(#[trigger] list[i])
        == json_written(altered_value(list[i])) by {
        lemma_altered_value(list[i]);
    }
    let json = |x: EvidenceChangeModel| EvidenceChange::json(x);
    lemma_list(list, json, |x: EvidenceChangeModel| altered_value(x));
    assert(json_values::<EvidenceChange>(list) == json_array(list.map_values(json))) by {
        assert(list.map_values(|x: <EvidenceChange as View>::V| EvidenceChange::json(x))
            =~= list.map_values(json));
    }
}

proof fn lemma_closing(p: Seq<char>)
    ensures
        p + "}\n"@ == (p + "}"@).push('\n'),
{
    reveal_strlit("}");
    reveal_strlit("}\n");
    assert(p + "}\n"@ =~= (p + "}"@).push('\n'));
}

proof fn lemma_list_unique<V>(a: Seq<V>, b: Seq<V>, value: spec_fn(V) -> JsonValue)
    requires
        a.map_values(value) == b.map_values(value),
        forall|x: V, y: V| #[trigger] value(x) == #[trigger] value(y) ==> x == y,
    ensures
        a == b,
{
    let p = a.map_values(value);
    let q = b.map_values(value);
    assert(p.len() == a.len() && q.len() == b.len());
    assert forall|i: int| 0 <= i < a.len() implies a[i] == b[i] by {
        assert(p[i] == q[i]);
        assert(p[i] == value(a[i]));
        assert(q[i] == value(b[i]));
    }
    assert(a =~= b);
}

proof fn lemma_option_unique(a: Option<Seq<char>>, b: Option<Seq<char>>)
    requires
        option_value(a) == option_value(b),
    ensures
        a == b,
{
}

proof fn lemma_texts_unique(a: Seq<Seq<char>>, b: Seq<Seq<char>>)
    requires
        texts_value(a) == texts_value(b),
    ensures
        a == b,
{
    lemma_list_unique(a, b, |s: Seq<char>| JsonValue::Text(s));
}

proof fn lemma_confidence_unique(a: Confidence, b: Confidence)
    requires
        confidence_text(a)@ == confidence_text(b)@,
    ensures
        a == b,
{
    reveal_strlit("direct");
    reveal_strlit("indirect");
    assert("direct"@.len() != "indirect"@.len());
}

proof fn lemma_needed_unique(a: NeededModel, b: NeededModel)
    requires
        needed_value(a) == needed_value(b),
    ensures
        a == b,
{
    let p = needed_value(a)->Object_0;
    let q = needed_value(b)->Object_0;
    assert(p[0].1 == q[0].1);
    assert(p[1].1 == q[1].1);
    lemma_option_unique(a.resolved, b.resolved);
}

proof fn lemma_object_unique(a: ObjectReportModel, b: ObjectReportModel)
    requires
        object_value(a) == object_value(b),
    ensures
        a == b,
{
    let p = object_value(a)->Object_0;
    let q = object_value(b)->Object_0;
    assert(p[0].1 == q[0].1);
    assert(p[1].1 == q[1].1);
    assert(p[2].1 == q[2].1);
    assert(p[3].1 == q[3].1);
    assert(p[4].1 == q[4].1);
    assert(p[5].1 == q[5].1);
    assert(p[6].1 == q[6].1);
    assert(p[7].1 == q[7].1);
    assert(p[8].1 == q[8].1);
    assert(p[9].1 == q[9].1);
    lemma_option_unique(a.soname, b.soname);
    lemma_option_unique(a.rpath, b.rpath);
    lemma_option_unique(a.runpath, b.runpath);
    assert forall|x: NeededModel, y: NeededModel| #[trigger] needed_value(x)
        == #[trigger] needed_value(y) implies x == y by {
        lemma_needed_unique(x, y);
    }
    lemma_list_unique(a.needed, b.needed, |x: NeededModel| needed_value(x));
    lemma_texts_unique(a.dlopen_candidates, b.dlopen_candidates);
}

proof fn lemma_finding_unique(a: FindingModel, b: FindingModel)
    requires
        finding_value(a) == finding_value(b),
    ensures
        a == b,
{
    let p = finding_value(a)->Object_0;
    let q = finding_value(b)->Object_0;
    assert(p[0].1 == q[0].1);
    assert(p[1].1 == q[1].1);
    assert(p[2].1 == q[2].1);
    assert(p[3].1 == q[3].1);
    assert(p[4].1 == q[4].1);
    assert(p[5].1 == q[5].1);
    assert(p[6].1 == q[6].1);
    lemma_option_unique(a.version, b.version);
    lemma_confidence_unique(a.confidence, b.confidence);
    assert forall|x: Seq<Seq<char>>, y: Seq<Seq<char>>| #[trigger] texts_value(x)
        == #[trigger] texts_value(y) implies x == y by {
        lemma_texts_unique(x, y);
    }
    lemma_list_unique(a.reached_via, b.reached_via, |x: Seq<Seq<char>>| texts_value(x));
}

proof fn lemma_error_unique(a: FileErrorModel, b: FileErrorModel)
    requires
        error_value(a) == error_value(b),
    ensures
        a == b,
{
    let p = error_value(a)->Object_0;
    let q = error_value(b)->Object_0;
    assert(p[0].1 == q[0].1);
    assert(p[1].1 == q[1].1);
}

proof fn lemma_report_unique(a: ReportModel, b: ReportModel)
    requires
        report_value(a) == report_value(b),
    ensures
        a == b,
{
    let p = report_value(a)->Object_0;
    let q = report_value(b)->Object_0;
    assert(p[0].1 == q[0].1);
    assert(p[1].1 == q[1].1);
    assert(p[2].1 == q[2].1);
    assert(p[3].1 == q[3].1);
    assert forall|x: ObjectReportModel, y: ObjectReportModel| #[trigger] object_value(x)
        == #[trigger] object_value(y) implies x == y by {
        lemma_object_unique(x, y);
    }
    lemma_list_unique(a.objects, b.objects, |x: ObjectReportModel| object_value(x));
    assert forall|x: FindingModel, y: FindingModel| #[trigger] finding_value(x)
        == #[trigger] finding_value(y) implies x == y by {
        lemma_finding_unique(x, y);
    }
    lemma_list_unique(a.findings, b.findings, |x: FindingModel| finding_value(x));
    assert forall|x: FileErrorModel, y: FileErrorModel| #[trigger] error_value(x)
        == #[trigger] error_value(y) implies x == y by {
        lemma_error_unique(x, y);
    }
    lemma_list_unique(a.errors, b.errors, |x: FileErrorModel| error_value(x));
}

proof fn lemma_key_unique(a: KeyModel, b: KeyModel)
    requires
        key_value(a) == key_value(b),
    ensures
        a == b,
{
    let p = key_value(a)->Object_0;
    let q = key_value(b)->Object_0;
    assert(p[0].1 == q[0].1);
    assert(p[1].1 == q[1].1);
    assert(p[2].1 == q[2].1);
    lemma_confidence_unique(a.confidence, b.confidence);
}

proof fn lemma_change_unique(a: ChangeModel, b: ChangeModel)
    requires
        change_value(a) == change_value(b),
    ensures
        a == b,
{
    let p = change_value(a)->Object_0;
    let q = change_value(b)->Object_0;
    assert(p[0].1 == q[0].1);
    assert(p[1].1 == q[1].1);
    assert(p[2].1 == q[2].1);
    assert forall|x: KeyModel, y: KeyModel| #[trigger] key_value(x)
        == #[trigger] key_value(y) implies x == y by {
        lemma_key_unique(x, y);
    }
    lemma_list_unique(a.evidence, b.evidence, |x: KeyModel| key_value(x));
}

proof fn lemma_altered_unique(a: EvidenceChangeModel, b: EvidenceChangeModel)
    requires
        altered_value(a) == altered_value(b),
    ensures
        a == b,
{
    let p = altered_value(a)->Object_0;
    let q = altered_value(b)->Object_0;
    assert(p[0].1 == q[0].1);
    assert(p[1].1 == q[1].1);
    assert(p[2].1 == q[2].1);
    assert(p[3].1 == q[3].1);
    assert forall|x: KeyModel, y: KeyModel| #[trigger] key_value(x)
        == #[trigger] key_value(y) implies x == y by {
        lemma_key_unique(x, y);
    }
    lemma_list_unique(a.added, b.added, |x: KeyModel| key_value(x));
    assert forall|x: KeyModel, y: KeyModel| #[trigger] key_value(x)
        == #[trigger] key_value(y) implies x == y by {
        lemma_key_unique(x, y);
    }
    lemma_list_unique(a.removed, b.removed, |x: KeyModel| key_value(x));
}

proof fn lemma_diff_unique(a: DiffModel, b: DiffModel)
    requires
        diff_value(a) == diff_value(b),
    ensures
        a == b,
{
    let p = diff_value(a)->Object_0;
    let q = diff_value(b)->Object_0;
    assert(p[0].1 == q[0].1);
    assert(p[1].1 == q[1].1);
    assert(p[2].1 == q[2].1);
    assert forall|x: ChangeModel, y: ChangeModel| #[trigger] change_value(x)
        == #[trigger] change_value(y) implies x == y by {
        lemma_change_unique(x, y);
    }
    lemma_list_unique(a.added, b.added, |x: ChangeModel| change_value(x));
    assert forall|x: ChangeModel, y: ChangeModel| #[trigger] change_value(x)
        == #[trigger] change_value(y) implies x == y by {
        lemma_change_unique(x, y);
    }
    lemma_list_unique(a.removed, b.removed, |x: ChangeModel| change_value(x));
    assert forall|x: EvidenceChangeModel, y: EvidenceChangeModel| #[trigger] altered_value(x)
        == #[trigger] altered_value(y) implies x == y by {
        lemma_altered_unique(x, y);
    }
    lemma_list_unique(a.changed, b.changed, |x: EvidenceChangeModel| altered_value(x));
}

/// A report in JSON is one JSON object, ended by a line break.
pub proof fn law_report_json_is_an_object(v: ReportModel)
    ensures
        report_as_json(v) == json_written(report_value(v)).push('\n'),
{
    lemma_first_keys();
    lemma_next_keys();
    lemma_more_keys();
    lemma_last_keys();
    lemma_object_values(v.objects);
    lemma_finding_values(v.findings);
    lemma_error_values(v.errors);
    let fields = report_value(v)->Object_0;
    let p1 = "{\"root\":"@ + json_text(v.root);
    assert(fields_upto(fields, 1) == p1);
    let p2 = p1 + ",\"objects\":"@ + json_values::<ObjectReport>(v.objects);
    assert(fields_upto(fields, 2) == p2);
    let p3 = p2 + ",\"findings\":"@ + json_values::<Finding>(v.findings);
    assert(fields_upto(fields, 3) == p3);
    let p4 = p3 + ",\"errors\":"@ + json_values::<FileError>(v.errors);
    assert(fields_upto(fields, 4) == p4);
    lemma_object(fields);
    lemma_closing(p4);
}

/// Nothing of a report is lost in JSON, the order of its lists included: different ones
/// are written differently.
pub proof fn law_report_json_loses_nothing(a: ReportModel, b: ReportModel)
    requires
        report_as_json(a) == report_as_json(b),
    ensures
        a == b,
{
    law_report_json_is_an_object(a);
    law_report_json_is_an_object(b);
    assert(report_as_json(a).drop_last() =~= json_written(report_value(a)));
    assert(report_as_json(b).drop_last() =~= json_written(report_value(b)));
    law_json_is_unambiguous(report_value(a), report_value(b));
    lemma_report_unique(a, b);
}

/// A comparison in JSON is one JSON object, ended by a line break.
pub proof fn law_diff_json_is_an_object(v: DiffModel)
    ensures
        diff_as_json(v) == json_written(diff_value(v)).push('\n'),
{
    lemma_first_keys();
    lemma_next_keys();
    lemma_more_keys();
    lemma_last_keys();
    lemma_change_values(v.added);
    lemma_change_values(v.removed);
    lemma_altered_values(v.changed);
    let fields = diff_value(v)->Object_0;
    let p1 = "{\"added\":"@ + json_values::<CapabilityChange>(v.added);
    assert(fields_upto(fields, 1) == p1);
    let p2 = p1 + ",\"removed\":"@ + json_values::<CapabilityChange>(v.removed);
    assert(fields_upto(fields, 2) == p2);
    let p3 = p2 + ",\"changed\":"@ + json_values::<EvidenceChange>(v.changed);
    assert(fields_upto(fields, 3) == p3);
    lemma_object(fields);
    lemma_closing(p3);
}

/// Nothing of a comparison is lost in JSON, the order of its lists included: different ones
/// are written differently.
pub proof fn law_diff_json_loses_nothing(a: DiffModel, b: DiffModel)
    requires
        diff_as_json(a) == diff_as_json(b),
    ensures
        a == b,
{
    law_diff_json_is_an_object(a);
    law_diff_json_is_an_object(b);
    assert(diff_as_json(a).drop_last() =~= json_written(diff_value(a)));
    assert(diff_as_json(b).drop_last() =~= json_written(diff_value(b)));
    law_json_is_unambiguous(diff_value(a), diff_value(b));
    lemma_diff_unique(a, b);
}

} // verus!
