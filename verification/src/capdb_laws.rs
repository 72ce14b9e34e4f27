//! Laws of the capability database.

use crate::capdb::{
    cap_of_string, cap_of_symbol, db_model, flaw_from, has_id, lemma_first_cap, lemma_no_repeat,
    line_step, lines_from, string_lists, symbol_lists, CapModel, DbErrorModel, DbState,
};
use crate::text::{
    lemma_lines_add, lemma_one_line, lemma_trim_without_return, lines, trim, without_return,
};
use vstd::prelude::*;

verus! {

/// No two capabilities share an id.
pub open spec fn distinct_ids(caps: Seq<CapModel>) -> bool {
    forall|i: int, j: int|
        0 <= i < j < caps.len() ==> (#[trigger] caps[i]).id != (#[trigger] caps[j]).id
}

/// A capability that says what it is about.
pub open spec fn is_complete(cap: CapModel) -> bool {
    cap.title.len() > 0 && cap.rationale.len() > 0 && (cap.symbols.len() > 0 || cap.strings.len()
        > 0)
}

/// No word stands in two lists, nor twice in one.
pub open spec fn disjoint_lists(lists: Seq<Seq<Seq<char>>>) -> bool {
    &&& forall|i: int| 0 <= i < lists.len() ==> (#[trigger] lists[i]).no_duplicates()
    &&& forall|i: int, j: int, w: Seq<char>|
        0 <= i < lists.len() && 0 <= j < lists.len() && #[trigger] lists[i].contains(w)
            && #[trigger] lists[j].contains(w) ==> i == j
}

proof fn lemma_step_ids(st: DbState, raw: Seq<char>, line: nat)
    requires
        distinct_ids(st.caps),
        line_step(st, raw, line) is Ok,
    ensures
        distinct_ids(line_step(st, raw, line)->Ok_0.caps),
{
    let next = line_step(st, raw, line)->Ok_0;
    if next.caps.len() == st.caps.len() {
        assert forall|i: int| 0 <= i < st.caps.len() implies (#[trigger] next.caps[i]).id
            == st.caps[i].id by {}
    } else {
        assert forall|i: int, j: int| 0 <= i < j < next.caps.len() implies (
        #[trigger] next.caps[i]).id != (#[trigger] next.caps[j]).id by {
            if j == st.caps.len() {
                assert(!has_id(st.caps, next.caps[j].id));
                assert(st.caps[i].id != next.caps[j].id);
            }
        }
    }
}

proof fn lemma_lines_ids(all: Seq<Seq<char>>, i: int, st: DbState)
    requires
        0 <= i,
        distinct_ids(st.caps),
        lines_from(all, i, st) is Ok,
    ensures
        distinct_ids(lines_from(all, i, st)->Ok_0.caps),
    decreases all.len() - i,
{
    if i < all.len() {
        lemma_step_ids(st, all[i], (i + 1) as nat);
        lemma_lines_ids(all, i + 1, line_step(st, all[i], (i + 1) as nat)->Ok_0);
    }
}

proof fn lemma_flawless(
    all: Seq<Seq<char>>,
    caps: Seq<CapModel>,
    i: int,
    symbols: Set<Seq<char>>,
    strings: Set<Seq<char>>,
)
    requires
        0 <= i,
        flaw_from(all, caps, i, symbols, strings) is None,
    ensures
        forall|k: int| i <= k < caps.len() ==> is_complete(#[trigger] caps[k]),
        forall|k: int|
            i <= k < caps.len() ==> (#[trigger] caps[k]).symbols.no_duplicates()
                && caps[k].strings.no_duplicates(),
        forall|k: int, w: Seq<char>|
            i <= k < caps.len() && #[trigger] caps[k].symbols.contains(w) ==> !symbols.contains(w),
        forall|k: int, w: Seq<char>|
            i <= k < caps.len() && #[trigger] caps[k].strings.contains(w) ==> !strings.contains(w),
        forall|k: int, m: int, w: Seq<char>|
            i <= k < m < caps.len() && #[trigger] caps[k].symbols.contains(w)
                ==> !(#[trigger] caps[m].symbols.contains(w)),
        forall|k: int, m: int, w: Seq<char>|
            i <= k < m < caps.len() && #[trigger] caps[k].strings.contains(w)
                ==> !(#[trigger] caps[m].strings.contains(w)),
    decreases caps.len() - i,
{
    if i < caps.len() {
        let cap = caps[i];
        lemma_no_repeat(cap.symbols, 0, symbols);
        lemma_no_repeat(cap.strings, 0, strings);
        let more_symbols = symbols.union(cap.symbols.to_set());
        let more_strings = strings.union(cap.strings.to_set());
        lemma_flawless(all, caps, i + 1, more_symbols, more_strings);
        assert forall|m: int, w: Seq<char>|
            i < m < caps.len() && #[trigger] caps[m].symbols.contains(w) implies !symbols.contains(
            w,
        ) && !cap.symbols.contains(w) by {
            assert(!more_symbols.contains(w));
            assert(!cap.symbols.to_set().contains(w));
        }
        assert forall|m: int, w: Seq<char>|
            i < m < caps.len() && #[trigger] caps[m].strings.contains(w) implies !strings.contains(
            w,
        ) && !cap.strings.contains(w) by {
            assert(!more_strings.contains(w));
            assert(!cap.strings.to_set().contains(w));
        }
    }
}

/// A database that parses is well formed: its ids are distinct, every capability
/// has a title, a rationale and something to look for, and no symbol and no
/// string is listed twice.
pub proof fn law_parsed_databases_are_well_formed(text: Seq<char>)
    requires
        db_model(text) is Ok,
    ensures
        distinct_ids(db_model(text)->Ok_0),
        forall|i: int|
            0 <= i < db_model(text)->Ok_0.len() ==> is_complete(
                #[trigger] db_model(text)->Ok_0[i],
            ),
        disjoint_lists(symbol_lists(db_model(text)->Ok_0)),
        disjoint_lists(string_lists(db_model(text)->Ok_0)),
{
    let all = lines(text);
    let caps = db_model(text)->Ok_0;
    lemma_lines_ids(all, 0, DbState { caps: Seq::empty(), key: None });
    lemma_flawless(all, caps, 0, Set::empty(), Set::empty());
    let a = symbol_lists(caps);
    assert forall|i: int, j: int, w: Seq<char>|
        0 <= i < a.len() && 0 <= j < a.len() && #[trigger] a[i].contains(w)
            && #[trigger] a[j].contains(w) implies i == j by {
        assert(caps[i].symbols.contains(w) && caps[j].symbols.contains(w));
    }
    let b = string_lists(caps);
    assert forall|i: int, j: int, w: Seq<char>|
        0 <= i < b.len() && 0 <= j < b.len() && #[trigger] b[i].contains(w)
            && #[trigger] b[j].contains(w) implies i == j by {
        assert(caps[i].strings.contains(w) && caps[j].strings.contains(w));
    }
}

/// Looking up a symbol or a string finds the one capability that lists it.
pub proof fn law_lookup_finds_the_owner(text: Seq<char>, i: int, w: Seq<char>)
    requires
        db_model(text) is Ok,
        0 <= i < db_model(text)->Ok_0.len(),
    ensures
        db_model(text)->Ok_0[i].symbols.contains(w) ==> cap_of_symbol(db_model(text)->Ok_0, w)
            == Some(i),
        db_model(text)->Ok_0[i].strings.contains(w) ==> cap_of_string(db_model(text)->Ok_0, w)
            == Some(i),
{
    law_parsed_databases_are_well_formed(text);
    let caps = db_model(text)->Ok_0;
    if caps[i].symbols.contains(w) {
        assert(symbol_lists(caps)[i].contains(w));
        let p = |c: CapModel| c.symbols.contains(w);
        assert forall|j: int| 0 <= j < i implies !p(#[trigger] caps[j]) by {
            assert(!symbol_lists(caps)[j].contains(w));
        }
        lemma_first_cap(caps, p, 0, i);
    }
    if caps[i].strings.contains(w) {
        assert(string_lists(caps)[i].contains(w));
        let p = |c: CapModel| c.strings.contains(w);
        assert forall|j: int| 0 <= j < i implies !p(#[trigger] caps[j]) by {
            assert(!string_lists(caps)[j].contains(w));
        }
        lemma_first_cap(caps, p, 0, i);
    }
}

/// A blank line or a comment.
pub open spec fn means_nothing(line: Seq<char>) -> bool {
    trim(line).len() == 0 || trim(line)[0] == '#'
}

/// A blank line or a comment leaves what has been read as it is.
pub proof fn law_a_comment_is_no_step(st: DbState, raw: Seq<char>, line: nat)
    requires
        means_nothing(raw),
    ensures
        line_step(st, raw, line) == Ok::<DbState, DbErrorModel>(st),
{
}

/// Line numbers only show in errors.
proof fn lemma_moved(
    a: Seq<Seq<char>>,
    i: int,
    b: Seq<Seq<char>>,
    j: int,
    st: DbState,
)
    requires
        0 <= i <= a.len(),
        0 <= j <= b.len(),
        a.skip(i) == b.skip(j),
        lines_from(a, i, st) is Ok,
    ensures
        lines_from(b, j, st) == lines_from(a, i, st),
    decreases a.len() - i,
{
    assert(a.skip(i).len() == a.len() - i && b.skip(j).len() == b.len() - j);
    if i < a.len() {
        assert(a.skip(i)[0] == a[i] && b.skip(j)[0] == b[j]);
        let next = line_step(st, a[i], (i + 1) as nat)->Ok_0;
        assert(line_step(st, b[j], (j + 1) as nat) == Ok::<DbState, DbErrorModel>(next));
        assert(a.skip(i + 1) =~= a.skip(i).skip(1));
        assert(b.skip(j + 1) =~= b.skip(j).skip(1));
        lemma_moved(a, i + 1, b, j + 1, next);
    }
}

proof fn lemma_inserted(
    before: Seq<Seq<char>>,
    line: Seq<char>,
    after: Seq<Seq<char>>,
    i: int,
    st: DbState,
)
    requires
        means_nothing(line),
        0 <= i <= before.len(),
        lines_from(before + after, i, st) is Ok,
    ensures
        lines_from(before.push(line) + after, i, st) == lines_from(before + after, i, st),
    decreases before.len() - i,
{
    let a = before + after;
    let b = before.push(line) + after;
    if i < before.len() {
        assert(a[i] == b[i]);
        lemma_inserted(before, line, after, i + 1, line_step(st, a[i], (i + 1) as nat)->Ok_0);
    } else {
        assert(b[i] == line);
        law_a_comment_is_no_step(st, line, (i + 1) as nat);
        assert(a.skip(i) =~= after);
        assert(b.skip(i + 1) =~= after);
        lemma_moved(a, i, b, i + 1, st);
    }
}

/// Whether capabilities have a flaw does not depend on the lines they come from.
proof fn lemma_flawless_anywhere(
    a: Seq<Seq<char>>,
    b: Seq<Seq<char>>,
    caps: Seq<CapModel>,
    i: int,
    symbols: Set<Seq<char>>,
    strings: Set<Seq<char>>,
)
    requires
        0 <= i,
        flaw_from(a, caps, i, symbols, strings) is None,
    ensures
        flaw_from(b, caps, i, symbols, strings) is None,
    decreases caps.len() - i,
{
    if i < caps.len() {
        lemma_flawless_anywhere(
            a,
            b,
            caps,
            i + 1,
            symbols.union(caps[i].symbols.to_set()),
            strings.union(caps[i].strings.to_set()),
        );
    }
}

/// Blank lines and comments mean nothing, wherever they stand, even between a key
/// and the line that continues it: with such a line put in between two lines, a
/// database that parses gives the same capabilities.
pub proof fn law_comments_mean_nothing(before: Seq<char>, line: Seq<char>, after: Seq<char>)
    requires
        before.len() == 0 || before.last() == '\n',
        !line.contains('\n'),
        means_nothing(line),
        db_model(before + after) is Ok,
    ensures
        db_model(before + line.push('\n') + after) == db_model(before + after),
{
    let a = lines(before);
    let b = lines(after);
    let shown = without_return(line);
    lemma_lines_add(before, after);
    lemma_lines_add(before, line.push('\n'));
    lemma_lines_add(before + line.push('\n'), after);
    lemma_one_line(line);
    lemma_trim_without_return(line);
    assert(a + seq![shown] =~= a.push(shown));
    let start = DbState { caps: Seq::empty(), key: None };
    lemma_inserted(a, shown, b, 0, start);
    let caps = lines_from(a + b, 0, start)->Ok_0.caps;
    lemma_flawless_anywhere(a + b, a.push(shown) + b, caps, 0, Set::empty(), Set::empty());
}

} // verus!
