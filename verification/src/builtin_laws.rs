//! That the database that ships with the library is sound.

use crate::builtin::{builtin_ids, builtin_lines, builtin_text};
use crate::capdb::{
    appended, db_model, first_repeat, flaw_from, has_id, key_named, line_step, lines_from,
    lines_text, new_cap, with_last, CapModel, DbErrorModel, DbState, Key,
};
use crate::text::{
    at_space, is_alphanumeric, is_space, lemma_lines_add, lemma_one_line, lemma_one_piece,
    lemma_position_is, lines, pieces, trim, trim_end, trim_start, without_return, words,
};
use vstd::prelude::*;

verus! {

/// A text that neither starts nor ends with a blank.
pub open spec fn is_trim(s: Seq<char>) -> bool {
    s.len() > 0 && !is_space(s[0]) && !is_space(s.last())
}

/// A line `[id]`.
pub open spec fn is_section_line(raw: Seq<char>) -> bool {
    &&& raw.len() > 2
    &&& raw[0] == '['
    &&& raw.last() == ']'
    &&& forall|i: int|
        1 <= i < raw.len() - 1 ==> is_alphanumeric(#[trigger] raw[i]) || raw[i] == '-'
}

/// A line `key = value` with a value.
pub open spec fn is_text_line(raw: Seq<char>, key: Seq<char>) -> bool {
    let n = key.len() as int;
    &&& raw.len() > n + 3
    &&& raw.take(n) == key
    &&& raw[n] == ' ' && raw[n + 1] == '=' && raw[n + 2] == ' '
    &&& !is_space(raw[n + 3])
    &&& !is_space(raw.last())
    &&& !raw.contains('\n')
}

/// A line with a word behind two blanks.
pub open spec fn is_word_line(raw: Seq<char>) -> bool {
    &&& raw.len() > 2
    &&& raw[0] == ' '
    &&& raw[1] == ' '
    &&& raw[2] != '#'
    &&& forall|i: int| 2 <= i < raw.len() ==> !is_space(#[trigger] raw[i])
}

/// A capability in a database: its lines, and the key that its words belong to.
pub struct Entry {
    pub from: int,
    pub to: int,
    pub list: Key,
}

/// The lines of an entry: its id, title, rationale, the key of its list, and the
/// words of the list.
#[verifier::opaque]
pub open spec fn is_entry(all: Seq<Seq<char>>, e: Entry) -> bool {
    &&& 0 <= e.from
    &&& e.from + 4 < e.to <= all.len()
    &&& is_section_line(all[e.from])
    &&& is_text_line(all[e.from + 1], "title"@)
    &&& is_text_line(all[e.from + 2], "rationale"@)
    &&& match e.list {
        Key::Symbols => all[e.from + 3] == "symbols ="@,
        Key::Strings => all[e.from + 3] == "strings ="@,
        _ => false,
    }
    &&& forall|i: int| e.from + 4 <= i < e.to ==> is_word_line(#[trigger] all[i])
}

/// The words of the lines from `i` up to `to`.
pub open spec fn entry_words(all: Seq<Seq<char>>, i: int, to: int) -> Seq<Seq<char>> {
    Seq::new((to - i) as nat, |k: int| all[i + k].skip(2))
}

/// The capability that an entry describes.
pub open spec fn entry_cap(all: Seq<Seq<char>>, e: Entry) -> CapModel {
    let list = entry_words(all, e.from + 4, e.to);
    CapModel {
        id: all[e.from].subrange(1, all[e.from].len() - 1),
        title: all[e.from + 1].skip(8),
        rationale: all[e.from + 2].skip(12),
        symbols: if e.list == Key::Symbols {
            list
        } else {
            Seq::empty()
        },
        strings: if e.list == Key::Symbols {
            Seq::empty()
        } else {
            list
        },
    }
}

proof fn lemma_trim(s: Seq<char>)
    requires
        is_trim(s),
    ensures
        trim(s) == s,
{
}

proof fn lemma_trim_blanks(s: Seq<char>, n: int)
    requires
        0 <= n < s.len(),
        forall|i: int| 0 <= i < n ==> is_space(#[trigger] s[i]),
        is_trim(s.skip(n)),
    ensures
        trim(s) == s.skip(n),
    decreases n,
{
    if n == 0 {
        assert(s.skip(0) =~= s);
    } else {
        let t = s.drop_first();
        assert forall|i: int| 0 <= i < n - 1 implies is_space(#[trigger] t[i]) by {
            assert(is_space(s[i + 1]));
        }
        assert(t.skip(n - 1) =~= s.skip(n));
        lemma_trim_blanks(t, n - 1);
        assert(is_space(s[0]));
        assert(trim_start(s) == trim_start(t));
    }
}

proof fn lemma_one_word(s: Seq<char>)
    requires
        s.len() > 0,
        forall|i: int| 0 <= i < s.len() ==> !is_space(#[trigger] s[i]),
    ensures
        words(s) == seq![s],
{
    let cut = at_space();
    assert forall|i: int| 0 <= i < s.len() implies !cut(#[trigger] s[i]) by {
        assert(!is_space(s[i]));
    }
    lemma_one_piece(s, cut);
    reveal(Seq::filter);
    let full = |p: Seq<char>| p.len() > 0;
    assert(seq![s].drop_last() =~= Seq::<Seq<char>>::empty());
    assert(seq![s].filter(full) =~= seq![s]);
}

proof fn lemma_section_step(caps: Seq<CapModel>, key: Option<Key>, raw: Seq<char>, line: nat)
    requires
        is_section_line(raw),
        !has_id(caps, raw.subrange(1, raw.len() - 1)),
    ensures
        line_step(DbState { caps, key }, raw, line) == Ok::<DbState, DbErrorModel>(
            DbState { caps: caps.push(new_cap(raw.subrange(1, raw.len() - 1))), key: None },
        ),
{
    lemma_trim(raw);
    let id = raw.subrange(1, raw.len() - 1);
    assert forall|i: int| 0 <= i < id.len() implies is_alphanumeric(#[trigger] id[i]) || id[i]
        == '-' by {
        assert(id[i] == raw[i + 1]);
    }
    assert(is_alphanumeric(id[0]) || id[0] == '-');
    assert(is_alphanumeric(id.last()) || id.last() == '-');
    lemma_trim(id);
}

proof fn lemma_text_step(st: DbState, raw: Seq<char>, name: Seq<char>, key: Key, line: nat)
    requires
        st.caps.len() > 0,
        is_text_line(raw, name),
        key_named(name) == Some(key),
        is_trim(name),
        name[0] != '#' && name[0] != '[',
        !name.contains('='),
    ensures
        line_step(st, raw, line) == Ok::<DbState, DbErrorModel>(
            DbState {
                caps: with_last(
                    st.caps,
                    appended(st.caps.last(), key, raw.skip(name.len() as int + 3)),
                ),
                key: Some(key),
            },
        ),
{
    let n = name.len() as int;
    assert(raw[0] == raw.take(n)[0]);
    lemma_trim(raw);
    assert forall|j: int| 0 <= j < n + 1 implies raw[j] != '=' by {
        if j < n {
            assert(raw[j] == raw.take(n)[j]);
        }
    }
    lemma_position_is(raw, '=', n + 1);
    let before = raw.take(n + 1);
    assert(before =~= name.push(' '));
    assert(before.drop_last() =~= name);
    lemma_trim(name);
    assert(trim_end(name) == name);
    assert(trim(before) == name);
    let after = raw.skip(n + 2);
    assert(after[0] == raw[n + 2]);
    assert(after.skip(1) =~= raw.skip(n + 3));
    assert(after.skip(1)[0] == raw[n + 3]);
    assert(after.skip(1).last() == raw.last());
    lemma_trim_blanks(after, 1);
}

proof fn lemma_list_step(st: DbState, raw: Seq<char>, name: Seq<char>, key: Key, line: nat)
    requires
        st.caps.len() > 0,
        raw == name + seq![' ', '='],
        key_named(name) == Some(key),
        key == Key::Symbols || key == Key::Strings,
        is_trim(name),
        name[0] != '#' && name[0] != '[',
        !name.contains('='),
    ensures
        line_step(st, raw, line) == Ok::<DbState, DbErrorModel>(
            DbState { caps: st.caps, key: Some(key) },
        ),
{
    let n = name.len() as int;
    assert(raw[0] == name[0]);
    assert(raw.last() == '=');
    lemma_trim(raw);
    assert forall|j: int| 0 <= j < n + 1 implies raw[j] != '=' by {
        if j < n {
            assert(raw[j] == name[j]);
        }
    }
    lemma_position_is(raw, '=', n + 1);
    let before = raw.take(n + 1);
    assert(before =~= name.push(' '));
    assert(before.drop_last() =~= name);
    lemma_trim(name);
    assert(trim_end(name) == name);
    assert(trim(before) == name);
    let after = raw.skip(n + 2);
    assert(after =~= Seq::<char>::empty());
    assert(trim(after) =~= Seq::<char>::empty());
    lemma_no_words();
    let cap = st.caps.last();
    assert(cap.symbols + Seq::<Seq<char>>::empty() =~= cap.symbols);
    assert(cap.strings + Seq::<Seq<char>>::empty() =~= cap.strings);
    assert(with_last(st.caps, cap) =~= st.caps);
}

proof fn lemma_no_words()
    ensures
        words(Seq::empty()) == Seq::<Seq<char>>::empty(),
{
    reveal(Seq::filter);
    let none = Seq::<char>::empty();
    assert(pieces(none, at_space()) == seq![none]);
    let full = |p: Seq<char>| p.len() > 0;
    assert(seq![none].drop_last() =~= Seq::<Seq<char>>::empty());
    assert(Seq::<Seq<char>>::empty().filter(full) =~= Seq::<Seq<char>>::empty());
    assert(seq![none].filter(full) =~= Seq::<Seq<char>>::empty());
}

proof fn lemma_word_step(caps: Seq<CapModel>, key: Key, raw: Seq<char>, line: nat)
    requires
        caps.len() > 0,
        is_word_line(raw),
        key == Key::Symbols || key == Key::Strings,
    ensures
        line_step(DbState { caps, key: Some(key) }, raw, line) == Ok::<DbState, DbErrorModel>(
            DbState {
                caps: with_last(caps, with_words(caps.last(), key, seq![raw.skip(2)])),
                key: Some(key),
            },
        ),
{
    let word = raw.skip(2);
    assert forall|i: int| 0 <= i < word.len() implies !is_space(#[trigger] word[i]) by {
        assert(!is_space(raw[i + 2]));
    }
    assert(!is_space(word[0]) && !is_space(word.last()));
    lemma_trim_blanks(raw, 2);
    lemma_one_word(word);
}

/// A capability with words added to its list.
pub open spec fn with_words(cap: CapModel, key: Key, list: Seq<Seq<char>>) -> CapModel {
    if key == Key::Symbols {
        CapModel { symbols: cap.symbols + list, ..cap }
    } else {
        CapModel { strings: cap.strings + list, ..cap }
    }
}

proof fn lemma_word_lines(
    all: Seq<Seq<char>>,
    i: int,
    to: int,
    caps: Seq<CapModel>,
    key: Key,
)
    requires
        0 <= i <= to <= all.len(),
        caps.len() > 0,
        key == Key::Symbols || key == Key::Strings,
        forall|k: int| i <= k < to ==> is_word_line(#[trigger] all[k]),
    ensures
        lines_from(all, i, DbState { caps, key: Some(key) }) == lines_from(
            all,
            to,
            DbState {
                caps: with_last(caps, with_words(caps.last(), key, entry_words(all, i, to))),
                key: Some(key),
            },
        ),
    decreases to - i,
{
    let cap = caps.last();
    let list = entry_words(all, i, to);
    if i == to {
        assert(list =~= Seq::<Seq<char>>::empty());
        assert(cap.symbols + list =~= cap.symbols);
        assert(cap.strings + list =~= cap.strings);
        assert(with_last(caps, cap) =~= caps);
    } else {
        let one = seq![all[i].skip(2)];
        lemma_word_step(caps, key, all[i], (i + 1) as nat);
        let next = with_last(caps, with_words(cap, key, one));
        lemma_word_lines(all, i + 1, to, next, key);
        let rest = entry_words(all, i + 1, to);
        assert(one + rest =~= list);
        assert((cap.symbols + one) + rest =~= cap.symbols + list);
        assert((cap.strings + one) + rest =~= cap.strings + list);
        assert(next.last() == with_words(cap, key, one));
        assert(with_last(next, with_words(next.last(), key, rest)) =~= with_last(
            caps,
            with_words(cap, key, list),
        ));
    }
}

proof fn lemma_key_names()
    ensures
        key_named("title"@) == Some(Key::Title),
        key_named("rationale"@) == Some(Key::Rationale),
        key_named("symbols"@) == Some(Key::Symbols),
        key_named("strings"@) == Some(Key::Strings),
        is_trim("title"@) && "title"@[0] == 't' && "title"@.len() == 5,
        is_trim("rationale"@) && "rationale"@[0] == 'r' && "rationale"@.len() == 9,
        is_trim("symbols"@) && "symbols"@[0] == 's',
        is_trim("strings"@) && "strings"@[0] == 's',
        !"title"@.contains('='),
        !"rationale"@.contains('='),
        !"symbols"@.contains('='),
        !"strings"@.contains('='),
        "symbols ="@ == "symbols"@ + seq![' ', '='],
        "strings ="@ == "strings"@ + seq![' ', '='],
{
    reveal_strlit("title");
    reveal_strlit("rationale");
    reveal_strlit("symbols");
    reveal_strlit("strings");
    reveal_strlit("symbols =");
    reveal_strlit("strings =");
    assert("title"@.len() == 5 && "rationale"@.len() == 9 && "symbols"@.len() == 7);
    assert("symbols"@[1] == 'y' && "strings"@[1] == 't');
    assert("symbols ="@ =~= "symbols"@ + seq![' ', '=']);
    assert("strings ="@ =~= "strings"@ + seq![' ', '=']);
}

proof fn lemma_entry(all: Seq<Seq<char>>, e: Entry, caps: Seq<CapModel>, key: Option<Key>)
    requires
        is_entry(all, e),
        !has_id(caps, entry_cap(all, e).id),
    ensures
        lines_from(all, e.from, DbState { caps, key }) == lines_from(
            all,
            e.to,
            DbState { caps: caps.push(entry_cap(all, e)), key: Some(e.list) },
        ),
{
    reveal(is_entry);
    lemma_key_names();
    let s = e.from;
    let id = entry_cap(all, e).id;
    lemma_section_step(caps, key, all[s], (s + 1) as nat);
    let fresh = new_cap(id);
    let st1 = DbState { caps: caps.push(fresh), key: None };
    lemma_text_step(st1, all[s + 1], "title"@, Key::Title, (s + 2) as nat);
    let titled = appended(fresh, Key::Title, all[s + 1].skip(8));
    let st2 = DbState { caps: caps.push(titled), key: Some(Key::Title) };
    assert(with_last(st1.caps, titled) =~= st2.caps);
    lemma_text_step(st2, all[s + 2], "rationale"@, Key::Rationale, (s + 3) as nat);
    let reasoned = appended(titled, Key::Rationale, all[s + 2].skip(12));
    let st3 = DbState { caps: caps.push(reasoned), key: Some(Key::Rationale) };
    assert(with_last(st2.caps, reasoned) =~= st3.caps);
    let name = if e.list == Key::Symbols {
        "symbols"@
    } else {
        "strings"@
    };
    lemma_list_step(st3, all[s + 3], name, e.list, (s + 4) as nat);
    lemma_word_lines(all, s + 4, e.to, st3.caps, e.list);
    let list = entry_words(all, s + 4, e.to);
    assert(Seq::<Seq<char>>::empty() + list =~= list);
    assert(with_words(reasoned, e.list, list) == entry_cap(all, e));
    assert(with_last(st3.caps, entry_cap(all, e)) =~= caps.push(entry_cap(all, e)));
    reveal_with_fuel(lines_from, 5);
}

/// The `k`th entry ends where the next begins.
pub open spec fn is_followed(entries: Seq<Entry>, k: int) -> bool {
    entries[k].to == entries[k + 1].from
}

/// Entries that follow each other and fill the lines.
pub open spec fn are_entries(all: Seq<Seq<char>>, entries: Seq<Entry>) -> bool {
    &&& entries.len() > 0
    &&& entries[0].from == 0
    &&& entries.last().to == all.len()
    &&& forall|k: int| 0 <= k < entries.len() ==> is_entry(all, #[trigger] entries[k])
    &&& forall|k: int| 0 <= k < entries.len() - 1 ==> #[trigger] is_followed(entries, k)
}

/// A line with an id or a word.
pub open spec fn is_name(raw: Seq<char>) -> bool {
    raw[0] == '[' || raw[0] == ' '
}

/// No id and no word has two lines.
pub open spec fn names_differ(all: Seq<Seq<char>>) -> bool {
    forall|i: int, j: int|
        0 <= i < j < all.len() && is_name(#[trigger] all[i]) && is_name(#[trigger] all[j])
            ==> all[i] != all[j]
}

/// The capabilities of the first `n` entries.
pub open spec fn entry_caps(all: Seq<Seq<char>>, entries: Seq<Entry>, n: int) -> Seq<CapModel> {
    Seq::new(n as nat, |k: int| entry_cap(all, entries[k]))
}

proof fn lemma_entries_in_order(all: Seq<Seq<char>>, entries: Seq<Entry>, j: int, k: int)
    requires
        are_entries(all, entries),
        0 <= j < k < entries.len(),
    ensures
        entries[j].to <= entries[k].from,
    decreases k - j,
{
    reveal(is_entry);
    if j + 1 < k {
        lemma_entries_in_order(all, entries, j, k - 1);
        assert(is_entry(all, entries[k - 1]));
    }
    assert(is_followed(entries, k - 1));
}

proof fn lemma_new_id(all: Seq<Seq<char>>, entries: Seq<Entry>, k: int)
    requires
        are_entries(all, entries),
        names_differ(all),
        0 <= k < entries.len(),
    ensures
        !has_id(entry_caps(all, entries, k), entry_cap(all, entries[k]).id),
{
    reveal(is_entry);
    let caps = entry_caps(all, entries, k);
    let id = entry_cap(all, entries[k]).id;
    if has_id(caps, id) {
        let j = choose|j: int| 0 <= j < caps.len() && (#[trigger] caps[j]).id == id;
        lemma_entries_in_order(all, entries, j, k);
        assert(is_entry(all, entries[j]) && is_entry(all, entries[k]));
        let a = all[entries[j].from];
        let b = all[entries[k].from];
        assert(is_name(a) && is_name(b));
        assert(a =~= b) by {
            assert(a.subrange(1, a.len() - 1) == b.subrange(1, b.len() - 1));
            assert(a.subrange(1, a.len() - 1).len() == b.subrange(1, b.len() - 1).len());
            assert forall|i: int| 0 <= i < a.len() implies a[i] == b[i] by {
                if 0 < i < a.len() - 1 {
                    assert(a.subrange(1, a.len() - 1)[i - 1] == b.subrange(1, b.len() - 1)[i - 1]);
                }
            }
        }
    }
}

proof fn lemma_all_entries(all: Seq<Seq<char>>, entries: Seq<Entry>, k: int, key: Option<Key>)
    requires
        are_entries(all, entries),
        names_differ(all),
        0 <= k < entries.len(),
    ensures
        lines_from(
            all,
            entries[k].from,
            DbState { caps: entry_caps(all, entries, k), key },
        ) matches Ok(st) && st.caps == entry_caps(all, entries, entries.len() as int),
    decreases entries.len() - k,
{
    let e = entries[k];
    let caps = entry_caps(all, entries, k);
    lemma_new_id(all, entries, k);
    lemma_entry(all, e, caps, key);
    assert(caps.push(entry_cap(all, e)) =~= entry_caps(all, entries, k + 1));
    if k + 1 < entries.len() {
        assert(is_followed(entries, k));
        lemma_all_entries(all, entries, k + 1, Some(e.list));
    }
}

/// A word of an entry has its line there.
proof fn lemma_word_line(all: Seq<Seq<char>>, e: Entry, w: Seq<char>) -> (i: int)
    requires
        is_entry(all, e),
        entry_words(all, e.from + 4, e.to).contains(w),
    ensures
        e.from + 4 <= i < e.to,
        all[i].skip(2) == w,
        is_word_line(all[i]),
{
    reveal(is_entry);
    let list = entry_words(all, e.from + 4, e.to);
    let k = choose|k: int| 0 <= k < list.len() && list[k] == w;
    e.from + 4 + k
}

proof fn lemma_same_word(a: Seq<char>, b: Seq<char>)
    requires
        is_word_line(a),
        is_word_line(b),
        a.skip(2) == b.skip(2),
    ensures
        a == b,
{
    assert(a =~= seq![' ', ' '] + a.skip(2));
    assert(b =~= seq![' ', ' '] + b.skip(2));
}

proof fn lemma_no_repeats(list: Seq<Seq<char>>, j: int, seen: Set<Seq<char>>)
    requires
        0 <= j,
        forall|k: int| j <= k < list.len() ==> !seen.contains(#[trigger] list[k]),
        forall|k: int, m: int|
            j <= k < m < list.len() ==> #[trigger] list[k] != #[trigger] list[m],
    ensures
        first_repeat(list, j, seen) is None,
    decreases list.len() - j,
{
    if j < list.len() {
        assert forall|k: int| j + 1 <= k < list.len() implies !seen.insert(list[j]).contains(
            #[trigger] list[k],
        ) by {
            assert(list[j] != list[k]);
        }
        lemma_no_repeats(list, j + 1, seen.insert(list[j]));
    }
}

/// Every word seen so far has its line among the first `to`.
spec fn seen_before(all: Seq<Seq<char>>, to: int, seen: Set<Seq<char>>) -> bool {
    forall|w: Seq<char>| #[trigger]
        seen.contains(w) ==> exists|i: int|
            0 <= i < to && is_word_line(#[trigger] all[i]) && all[i].skip(2) == w
}

proof fn lemma_entry_words_new(all: Seq<Seq<char>>, e: Entry, seen: Set<Seq<char>>)
    requires
        is_entry(all, e),
        names_differ(all),
        seen_before(all, e.from, seen),
    ensures
        first_repeat(entry_words(all, e.from + 4, e.to), 0, seen) is None,
        seen_before(all, e.to, seen.union(entry_words(all, e.from + 4, e.to).to_set())),
        seen_before(all, e.to, seen),
{
    reveal(is_entry);
    let list = entry_words(all, e.from + 4, e.to);
    assert forall|k: int| 0 <= k < list.len() implies !seen.contains(#[trigger] list[k]) by {
        let j = e.from + 4 + k;
        assert(is_word_line(all[j]));
        if seen.contains(list[k]) {
            let i = choose|i: int|
                0 <= i < e.from && is_word_line(#[trigger] all[i]) && all[i].skip(2) == list[k];
            lemma_same_word(all[i], all[j]);
            assert(is_name(all[i]) && is_name(all[j]));
        }
    }
    assert forall|k: int, m: int| 0 <= k < m < list.len() implies #[trigger] list[k]
        != #[trigger] list[m] by {
        let i = e.from + 4 + k;
        let j = e.from + 4 + m;
        assert(is_word_line(all[i]) && is_word_line(all[j]));
        if list[k] == list[m] {
            lemma_same_word(all[i], all[j]);
            assert(is_name(all[i]) && is_name(all[j]));
        }
    }
    lemma_no_repeats(list, 0, seen);
    let more = seen.union(list.to_set());
    assert forall|w: Seq<char>| #[trigger] more.contains(w) implies exists|i: int|
        0 <= i < e.to && is_word_line(#[trigger] all[i]) && all[i].skip(2) == w by {
        if seen.contains(w) {
            let i = choose|i: int|
                0 <= i < e.from && is_word_line(#[trigger] all[i]) && all[i].skip(2) == w;
            assert(0 <= i < e.to && is_word_line(all[i]) && all[i].skip(2) == w);
        } else {
            let i = lemma_word_line(all, e, w);
            assert(0 <= i < e.to && is_word_line(all[i]) && all[i].skip(2) == w);
        }
    }
    assert forall|w: Seq<char>| #[trigger] seen.contains(w) implies exists|i: int|
        0 <= i < e.to && is_word_line(#[trigger] all[i]) && all[i].skip(2) == w by {
        let i = choose|i: int|
            0 <= i < e.from && is_word_line(#[trigger] all[i]) && all[i].skip(2) == w;
        assert(0 <= i < e.to && is_word_line(all[i]) && all[i].skip(2) == w);
    }
}

proof fn lemma_no_flaw(
    all: Seq<Seq<char>>,
    entries: Seq<Entry>,
    k: int,
    symbols: Set<Seq<char>>,
    strings: Set<Seq<char>>,
)
    requires
        are_entries(all, entries),
        names_differ(all),
        0 <= k <= entries.len(),
        k < entries.len() ==> seen_before(all, entries[k].from, symbols) && seen_before(
            all,
            entries[k].from,
            strings,
        ),
    ensures
        flaw_from(
            all,
            entry_caps(all, entries, entries.len() as int),
            k,
            symbols,
            strings,
        ) is None,
    decreases entries.len() - k,
{
    reveal(is_entry);
    if k < entries.len() {
        let e = entries[k];
        let cap = entry_cap(all, e);
        lemma_key_names();
        assert(is_entry(all, e));
        assert(cap.title.len() > 0 && cap.rationale.len() > 0);
        lemma_entry_words_new(all, e, symbols);
        lemma_entry_words_new(all, e, strings);
        let none = Seq::<Seq<char>>::empty();
        assert(symbols.union(none.to_set()) =~= symbols);
        assert(strings.union(none.to_set()) =~= strings);
        if k + 1 < entries.len() {
            assert(is_followed(entries, k));
        }
        lemma_no_flaw(
            all,
            entries,
            k + 1,
            symbols.union(cap.symbols.to_set()),
            strings.union(cap.strings.to_set()),
        );
    }
}

proof fn lemma_lines_of_text(all: Seq<Seq<char>>, n: int)
    requires
        0 <= n <= all.len(),
        forall|i: int|
            0 <= i < all.len() ==> !(#[trigger] all[i]).contains('\n') && without_return(all[i])
                == all[i],
    ensures
        lines(lines_text(all, n)) == all.take(n),
        n == 0 || lines_text(all, n).last() == '\n',
    decreases n,
{
    if n == 0 {
        assert(lines(Seq::empty()) =~= all.take(0)) by {
            reveal_with_fuel(pieces, 2);
        }
    } else {
        lemma_lines_of_text(all, n - 1);
        let before = lines_text(all, n - 1);
        if n == 1 {
            assert(before =~= Seq::<char>::empty());
        }
        lemma_lines_add(before, all[n - 1].push('\n'));
        lemma_one_line(all[n - 1]);
        assert(all.take(n) =~= all.take(n - 1) + seq![all[n - 1]]);
        assert(lines_text(all, n).last() == '\n');
    }
}

/// The lines of an entry are lines.
proof fn lemma_plain_lines(all: Seq<Seq<char>>, e: Entry)
    requires
        is_entry(all, e),
    ensures
        forall|i: int|
            e.from <= i < e.to ==> !(#[trigger] all[i]).contains('\n') && without_return(all[i])
                == all[i],
{
    reveal(is_entry);
    reveal_strlit("symbols =");
    reveal_strlit("strings =");
    assert("symbols ="@.last() == '=' && "strings ="@.last() == '=');
    assert forall|i: int| e.from <= i < e.to implies !(#[trigger] all[i]).contains('\n')
        && without_return(all[i]) == all[i] by {
        let raw = all[i];
        if i == e.from {
            assert forall|j: int| 0 <= j < raw.len() implies raw[j] != '\n' by {
                if 0 < j < raw.len() - 1 {
                    assert(is_alphanumeric(raw[j]) || raw[j] == '-');
                }
            }
        } else if i >= e.from + 4 {
            assert(is_word_line(raw));
            assert forall|j: int| 0 <= j < raw.len() implies raw[j] != '\n' by {
                if j >= 2 {
                    assert(!is_space(raw[j]));
                }
            }
            assert(!is_space(raw[raw.len() - 1]));
        }
    }
}

/// The entry that a line belongs to, among the first `k + 1`.
proof fn lemma_entry_of(all: Seq<Seq<char>>, entries: Seq<Entry>, i: int, k: int) -> (r: int)
    requires
        are_entries(all, entries),
        0 <= k < entries.len(),
        0 <= i < entries[k].to,
    ensures
        0 <= r <= k,
        entries[r].from <= i < entries[r].to,
    decreases k,
{
    reveal(is_entry);
    if entries[k].from <= i {
        k
    } else {
        assert(k > 0);
        assert(is_followed(entries, k - 1));
        lemma_entry_of(all, entries, i, k - 1)
    }
}

/// A database that consists of entries parses to what they describe.
proof fn lemma_database(all: Seq<Seq<char>>, entries: Seq<Entry>)
    requires
        are_entries(all, entries),
        names_differ(all),
    ensures
        db_model(lines_text(all, all.len() as int)) == Ok::<Seq<CapModel>, DbErrorModel>(
            entry_caps(all, entries, entries.len() as int),
        ),
{
    assert forall|i: int| 0 <= i < all.len() implies !(#[trigger] all[i]).contains('\n')
        && without_return(all[i]) == all[i] by {
        let k = lemma_entry_of(all, entries, i, entries.len() - 1);
        lemma_plain_lines(all, entries[k]);
    }
    lemma_lines_of_text(all, all.len() as int);
    assert(all.take(all.len() as int) =~= all);
    assert(entry_caps(all, entries, 0) =~= Seq::<CapModel>::empty());
    lemma_all_entries(all, entries, 0, None);
    lemma_no_flaw(all, entries, 0, Set::empty(), Set::empty());
}

/// Something that tells the names of the database apart: the length of a line and two
/// of its characters.
spec fn mark(s: Seq<char>) -> int {
    s.len() * 0x10000 + (s[s.len() - 2] as int) * 0x100 + (s[s.len() as int / 2] as int)
}

/// The lines of an entry have the marks that are listed for them.
#[verifier::opaque]
spec fn has_marks(all: Seq<Seq<char>>, marks: Seq<int>, e: Entry) -> bool {
    forall|i: int| e.from <= i < e.to && is_name(#[trigger] all[i]) ==> mark(all[i]) == marks[i]
}

/// Lines with different marks are different.
proof fn lemma_marks_tell(all: Seq<Seq<char>>, entries: Seq<Entry>, marks: Seq<int>)
    requires
        are_entries(all, entries),
        marks.len() == all.len(),
        marks.no_duplicates(),
        forall|k: int| 0 <= k < entries.len() ==> has_marks(all, marks, #[trigger] entries[k]),
    ensures
        names_differ(all),
{
    reveal(has_marks);
    assert forall|i: int| 0 <= i < all.len() && is_name(#[trigger] all[i]) implies mark(all[i])
        == marks[i] by {
        let k = lemma_entry_of(all, entries, i, entries.len() - 1);
        assert(has_marks(all, marks, entries[k]));
    }
}

/// The entries of the database.
spec fn builtin_entries() -> Seq<Entry> {
    seq![
        Entry { from: 0, to: 16, list: Key::Symbols },
        Entry { from: 16, to: 25, list: Key::Symbols },
        Entry { from: 25, to: 43, list: Key::Symbols },
        Entry { from: 43, to: 52, list: Key::Symbols },
        Entry { from: 52, to: 60, list: Key::Symbols },
        Entry { from: 60, to: 67, list: Key::Strings },
        Entry { from: 67, to: 80, list: Key::Symbols },
        Entry { from: 80, to: 93, list: Key::Symbols },
        Entry { from: 93, to: 100, list: Key::Symbols },
        Entry { from: 100, to: 113, list: Key::Symbols },
        Entry { from: 113, to: 124, list: Key::Symbols },
    ]
}

/// The marks of the lines with a name; the other lines have a number below zero.
#[verifier::opaque]
spec fn builtin_marks() -> Seq<int> {
    seq![
        0x10646f, -1, -2, -3, 0x136f74, 0x176f72, 0x1f6565, 0x1d7474, 0x207472, 0x1c7864,
        0x217477, 0x1d7864, 0x1f6e5f, 0x1a6e72, 0x167869, 0x186e70, 0x11686f, -17, -18, -19,
        0x1c7553, 0x1d6653, 0x237563, 0x2b6565, 0x246674, 0x106563, -26, -27, -28, 0xb6774,
        0xe6775, 0xe6765, 0xf6765, 0x196561, 0x13675f, 0x1d6569, 0x1c616d, 0x1a6f65, 0x1e7769,
        0x226161, 0x1f6f5f, 0x237765, 0x1c6f65, 0x186767, -44, -45, -46, 0xf7467, 0x116365,
        0x137461, 0x1b6563, 0x156367, 0x116d65, -53, -54, -55, 0x136361, 0xf6572, 0x166c5f,
        0x176674, 0x137463, -61, -62, -63, 0x23732e, 0x236f2e, 0x266f6f, 0xe6472, -68, -69,
        -70, 0x136741, 0x167865, 0x167861, 0x1b6e6c, 0x1b7863, 0x1b7865, 0xe6179, 0x126172,
        0x1c6579, 0xf6272, -81, -82, -83, 0xa6561, 0xf724b, 0xe6572, 0x16656b, 0x137262,
        0x1d6562, 0x136162, 0x116176, 0xf6165, 0x156e2d, -94, -95, -96, 0x107463, 0x1c745f,
        0x246565, 0x116e6e, -101, -102, -103, 0x136e6b, 0x166e42, 0x166e4d, 0x1e6e74, 0x15755f,
        0x1d6565, 0xf6577, 0x18656b, 0x1a6f6f, 0x166e72, -114, -115, -116, 0xc6572, 0xc6d63,
        0xc6d57, 0x106565, 0x1a6572, 0x1a7374, 0x166d67,
    ]
}

proof fn lemma_selection_read()
    ensures
        is_entry(builtin_lines(), builtin_entries()[0]),
        has_marks(builtin_lines(), builtin_marks(), builtin_entries()[0]),
        entry_cap(builtin_lines(), builtin_entries()[0]).id == "selection-read"@,
{
    let all = builtin_lines();
    let marks = builtin_marks();
    let e = builtin_entries()[0];
    reveal(builtin_lines);
    reveal(builtin_marks);
    reveal(is_entry);
    reveal(has_marks);
    reveal_strlit("title");
    reveal_strlit("rationale");
    reveal_strlit("selection-read");
    reveal_strlit("[selection-read]");
    reveal_strlit("title = Reads clipboard or primary-selection contents");
    reveal_strlit(
        "rationale = On X11 any client can ask the owner of a selection for its contents at \
            any time and without the user noticing, so passwords and private messages that were \
            copied are readable in the background. Every toolkit needs these calls to paste, \
            which makes the signal noisy; what counts is which component asks.",
    );
    reveal_strlit("symbols =");
    reveal_strlit("  XConvertSelection");
    reveal_strlit("  xcb_convert_selection");
    reveal_strlit("  xcb_convert_selection_checked");
    reveal_strlit("  xcb_icccm_get_text_property");
    reveal_strlit("  gtk_clipboard_request_contents");
    reveal_strlit("  gtk_clipboard_request_text");
    reveal_strlit("  gtk_clipboard_wait_for_contents");
    reveal_strlit("  gtk_clipboard_wait_for_text");
    reveal_strlit("  gdk_clipboard_read_text_async");
    reveal_strlit("  gdk_clipboard_read_async");
    reveal_strlit("  SDL_GetClipboardText");
    reveal_strlit("  glfwGetClipboardString");
    assert(all[1].take(5) =~= "title"@);
    assert(all[2].take(9) =~= "rationale"@);
    assert(mark(all[0]) == marks[0]);
    assert(is_word_line(all[4]) && mark(all[4]) == marks[4]);
    assert(is_word_line(all[5]) && mark(all[5]) == marks[5]);
    assert(is_word_line(all[6]) && mark(all[6]) == marks[6]);
    assert(is_word_line(all[7]) && mark(all[7]) == marks[7]);
    assert(is_word_line(all[8]) && mark(all[8]) == marks[8]);
    assert(is_word_line(all[9]) && mark(all[9]) == marks[9]);
    assert(is_word_line(all[10]) && mark(all[10]) == marks[10]);
    assert(is_word_line(all[11]) && mark(all[11]) == marks[11]);
    assert(is_word_line(all[12]) && mark(all[12]) == marks[12]);
    assert(is_word_line(all[13]) && mark(all[13]) == marks[13]);
    assert(is_word_line(all[14]) && mark(all[14]) == marks[14]);
    assert(is_word_line(all[15]) && mark(all[15]) == marks[15]);
    assert(!is_name(all[1]) && !is_name(all[2]) && !is_name(all[3]));
    assert forall|i: int| e.from + 4 <= i < e.to implies is_word_line(#[trigger] all[i]) by {
        assert(i == 0 || i == 1 || i == 2 || i == 3 || i == 4 || i == 5 || i == 6
            || i == 7 || i == 8 || i == 9 || i == 10 || i == 11 || i == 12 || i == 13
            || i == 14 || i == 15);
    }
    assert forall|i: int| e.from <= i < e.to && is_name(#[trigger] all[i]) implies mark(all[i])
        == marks[i] by {
        assert(i == 0 || i == 1 || i == 2 || i == 3 || i == 4 || i == 5 || i == 6
            || i == 7 || i == 8 || i == 9 || i == 10 || i == 11 || i == 12 || i == 13
            || i == 14 || i == 15);
    }
    assert(entry_cap(all, e).id =~= "selection-read"@);
}

proof fn lemma_selection_watch()
    ensures
        is_entry(builtin_lines(), builtin_entries()[1]),
        has_marks(builtin_lines(), builtin_marks(), builtin_entries()[1]),
        entry_cap(builtin_lines(), builtin_entries()[1]).id == "selection-watch"@,
{
    let all = builtin_lines();
    let marks = builtin_marks();
    let e = builtin_entries()[1];
    reveal(builtin_lines);
    reveal(builtin_marks);
    reveal(is_entry);
    reveal(has_marks);
    reveal_strlit("title");
    reveal_strlit("rationale");
    reveal_strlit("selection-watch");
    reveal_strlit("[selection-watch]");
    reveal_strlit("title = Gets notified whenever any application changes the clipboard");
    reveal_strlit(
        "rationale = XFixes sends an event each time a selection gets a new owner, in \
            whatever application the user copied something. Together with reading the selection \
            this is all that a clipboard logger needs. Clipboard managers and some toolkits use \
            it as well, so look at who imports it.",
    );
    reveal_strlit("symbols =");
    reveal_strlit("  XFixesSelectSelectionInput");
    reveal_strlit("  XFixesSelectSelectionNotify");
    reveal_strlit("  xcb_xfixes_select_selection_input");
    reveal_strlit("  xcb_xfixes_select_selection_input_checked");
    reveal_strlit("  xcb_xfixes_select_selection_notify");
    assert(all[17].take(5) =~= "title"@);
    assert(all[18].take(9) =~= "rationale"@);
    assert(mark(all[16]) == marks[16]);
    assert(is_word_line(all[20]) && mark(all[20]) == marks[20]);
    assert(is_word_line(all[21]) && mark(all[21]) == marks[21]);
    assert(is_word_line(all[22]) && mark(all[22]) == marks[22]);
    assert(is_word_line(all[23]) && mark(all[23]) == marks[23]);
    assert(is_word_line(all[24]) && mark(all[24]) == marks[24]);
    assert(!is_name(all[17]) && !is_name(all[18]) && !is_name(all[19]));
    assert forall|i: int| e.from + 4 <= i < e.to implies is_word_line(#[trigger] all[i]) by {
        assert(i == 16 || i == 17 || i == 18 || i == 19 || i == 20 || i == 21
            || i == 22 || i == 23 || i == 24);
    }
    assert forall|i: int| e.from <= i < e.to && is_name(#[trigger] all[i]) implies mark(all[i])
        == marks[i] by {
        assert(i == 16 || i == 17 || i == 18 || i == 19 || i == 20 || i == 21
            || i == 22 || i == 23 || i == 24);
    }
    assert(entry_cap(all, e).id =~= "selection-watch"@);
}

proof fn lemma_screen_capture()
    ensures
        is_entry(builtin_lines(), builtin_entries()[2]),
        has_marks(builtin_lines(), builtin_marks(), builtin_entries()[2]),
        entry_cap(builtin_lines(), builtin_entries()[2]).id == "screen-capture"@,
{
    let all = builtin_lines();
    let marks = builtin_marks();
    let e = builtin_entries()[2];
    reveal(builtin_lines);
    reveal(builtin_marks);
    reveal(is_entry);
    reveal(has_marks);
    reveal_strlit("title");
    reveal_strlit("rationale");
    reveal_strlit("screen-capture");
    reveal_strlit("[screen-capture]");
    reveal_strlit("title = Reads pixels of the screen or of other windows");
    reveal_strlit(
        "rationale = Reading an image from the root window or from a redirected window shows \
            whatever is on the display, including windows of other applications. Drawing code \
            sometimes reads back its own pixmaps through the same calls, so a hit in a rendering \
            library alone is weak.",
    );
    reveal_strlit("symbols =");
    reveal_strlit("  XGetImage");
    reveal_strlit("  XGetSubImage");
    reveal_strlit("  XShmGetImage");
    reveal_strlit("  xcb_get_image");
    reveal_strlit("  xcb_get_image_unchecked");
    reveal_strlit("  xcb_shm_get_image");
    reveal_strlit("  xcb_shm_get_image_unchecked");
    reveal_strlit("  XCompositeNameWindowPixmap");
    reveal_strlit("  XCompositeRedirectWindow");
    reveal_strlit("  XCompositeRedirectSubwindows");
    reveal_strlit("  xcb_composite_name_window_pixmap");
    reveal_strlit("  xcb_composite_redirect_window");
    reveal_strlit("  xcb_composite_redirect_subwindows");
    reveal_strlit("  gdk_pixbuf_get_from_window");
    assert(all[26].take(5) =~= "title"@);
    assert(all[27].take(9) =~= "rationale"@);
    assert(mark(all[25]) == marks[25]);
    assert(is_word_line(all[29]) && mark(all[29]) == marks[29]);
    assert(is_word_line(all[30]) && mark(all[30]) == marks[30]);
    assert(is_word_line(all[31]) && mark(all[31]) == marks[31]);
    assert(is_word_line(all[32]) && mark(all[32]) == marks[32]);
    assert(is_word_line(all[33]) && mark(all[33]) == marks[33]);
    assert(is_word_line(all[34]) && mark(all[34]) == marks[34]);
    assert(is_word_line(all[35]) && mark(all[35]) == marks[35]);
    assert(is_word_line(all[36]) && mark(all[36]) == marks[36]);
    assert(is_word_line(all[37]) && mark(all[37]) == marks[37]);
    assert(is_word_line(all[38]) && mark(all[38]) == marks[38]);
    assert(is_word_line(all[39]) && mark(all[39]) == marks[39]);
    assert(is_word_line(all[40]) && mark(all[40]) == marks[40]);
    assert(is_word_line(all[41]) && mark(all[41]) == marks[41]);
    assert(is_word_line(all[42]) && mark(all[42]) == marks[42]);
    assert(!is_name(all[26]) && !is_name(all[27]) && !is_name(all[28]));
    assert forall|i: int| e.from + 4 <= i < e.to implies is_word_line(#[trigger] all[i]) by {
        assert(i == 25 || i == 26 || i == 27 || i == 28 || i == 29 || i == 30
            || i == 31 || i == 32 || i == 33 || i == 34 || i == 35 || i == 36
            || i == 37 || i == 38 || i == 39 || i == 40 || i == 41 || i == 42);
    }
    assert forall|i: int| e.from <= i < e.to && is_name(#[trigger] all[i]) implies mark(all[i])
        == marks[i] by {
        assert(i == 25 || i == 26 || i == 27 || i == 28 || i == 29 || i == 30
            || i == 31 || i == 32 || i == 33 || i == 34 || i == 35 || i == 36
            || i == 37 || i == 38 || i == 39 || i == 40 || i == 41 || i == 42);
    }
    assert(entry_cap(all, e).id =~= "screen-capture"@);
}

proof fn lemma_screen_change_tracking()
    ensures
        is_entry(builtin_lines(), builtin_entries()[3]),
        has_marks(builtin_lines(), builtin_marks(), builtin_entries()[3]),
        entry_cap(builtin_lines(), builtin_entries()[3]).id == "screen-change-tracking"@,
{
    let all = builtin_lines();
    let marks = builtin_marks();
    let e = builtin_entries()[3];
    reveal(builtin_lines);
    reveal(builtin_marks);
    reveal(is_entry);
    reveal(has_marks);
    reveal_strlit("title");
    reveal_strlit("rationale");
    reveal_strlit("screen-change-tracking");
    reveal_strlit("[screen-change-tracking]");
    reveal_strlit("title = Tracks which parts of the screen change");
    reveal_strlit(
        "rationale = The Damage extension reports every region that is redrawn, on the whole \
            screen if asked, which is how screen recorders know when to grab the next frame. It \
            carries no pixels itself and compositors depend on it, so it matters mostly next to \
            screen capture.",
    );
    reveal_strlit("symbols =");
    reveal_strlit("  XDamageCreate");
    reveal_strlit("  XDamageSubtract");
    reveal_strlit("  xcb_damage_create");
    reveal_strlit("  xcb_damage_create_checked");
    reveal_strlit("  xcb_damage_subtract");
    assert(all[44].take(5) =~= "title"@);
    assert(all[45].take(9) =~= "rationale"@);
    assert(mark(all[43]) == marks[43]);
    assert(is_word_line(all[47]) && mark(all[47]) == marks[47]);
    assert(is_word_line(all[48]) && mark(all[48]) == marks[48]);
    assert(is_word_line(all[49]) && mark(all[49]) == marks[49]);
    assert(is_word_line(all[50]) && mark(all[50]) == marks[50]);
    assert(is_word_line(all[51]) && mark(all[51]) == marks[51]);
    assert(!is_name(all[44]) && !is_name(all[45]) && !is_name(all[46]));
    assert forall|i: int| e.from + 4 <= i < e.to implies is_word_line(#[trigger] all[i]) by {
        assert(i == 43 || i == 44 || i == 45 || i == 46 || i == 47 || i == 48
            || i == 49 || i == 50 || i == 51);
    }
    assert forall|i: int| e.from <= i < e.to && is_name(#[trigger] all[i]) implies mark(all[i])
        == marks[i] by {
        assert(i == 43 || i == 44 || i == 45 || i == 46 || i == 47 || i == 48
            || i == 49 || i == 50 || i == 51);
    }
    assert(entry_cap(all, e).id =~= "screen-change-tracking"@);
}

proof fn lemma_pipewire_stream()
    ensures
        is_entry(builtin_lines(), builtin_entries()[4]),
        has_marks(builtin_lines(), builtin_marks(), builtin_entries()[4]),
        entry_cap(builtin_lines(), builtin_entries()[4]).id == "pipewire-stream"@,
{
    let all = builtin_lines();
    let marks = builtin_marks();
    let e = builtin_entries()[4];
    reveal(builtin_lines);
    reveal(builtin_marks);
    reveal(is_entry);
    reveal(has_marks);
    reveal_strlit("title");
    reveal_strlit("rationale");
    reveal_strlit("pipewire-stream");
    reveal_strlit("[pipewire-stream]");
    reveal_strlit("title = Connects media streams through PipeWire");
    reveal_strlit(
        "rationale = On Wayland desktops a granted screen share arrives as a PipeWire stream, \
            and cameras and microphones do so too. The import shows that the component can \
            consume or produce such a stream, not that permission was ever given, and plain \
            audio players connect streams as well.",
    );
    reveal_strlit("symbols =");
    reveal_strlit("  pw_stream_connect");
    reveal_strlit("  pw_stream_new");
    reveal_strlit("  pw_stream_new_simple");
    reveal_strlit("  pw_context_connect_fd");
    assert(all[53].take(5) =~= "title"@);
    assert(all[54].take(9) =~= "rationale"@);
    assert(mark(all[52]) == marks[52]);
    assert(is_word_line(all[56]) && mark(all[56]) == marks[56]);
    assert(is_word_line(all[57]) && mark(all[57]) == marks[57]);
    assert(is_word_line(all[58]) && mark(all[58]) == marks[58]);
    assert(is_word_line(all[59]) && mark(all[59]) == marks[59]);
    assert(!is_name(all[53]) && !is_name(all[54]) && !is_name(all[55]));
    assert forall|i: int| e.from + 4 <= i < e.to implies is_word_line(#[trigger] all[i]) by {
        assert(i == 52 || i == 53 || i == 54 || i == 55 || i == 56 || i == 57
            || i == 58 || i == 59);
    }
    assert forall|i: int| e.from <= i < e.to && is_name(#[trigger] all[i]) implies mark(all[i])
        == marks[i] by {
        assert(i == 52 || i == 53 || i == 54 || i == 55 || i == 56 || i == 57
            || i == 58 || i == 59);
    }
    assert(entry_cap(all, e).id =~= "pipewire-stream"@);
}

proof fn lemma_portal_screencast()
    ensures
        is_entry(builtin_lines(), builtin_entries()[5]),
        has_marks(builtin_lines(), builtin_marks(), builtin_entries()[5]),
        entry_cap(builtin_lines(), builtin_entries()[5]).id == "portal-screencast"@,
{
    let all = builtin_lines();
    let marks = builtin_marks();
    let e = builtin_entries()[5];
    reveal(builtin_lines);
    reveal(builtin_marks);
    reveal(is_entry);
    reveal(has_marks);
    reveal_strlit("title");
    reveal_strlit("rationale");
    reveal_strlit("portal-screencast");
    reveal_strlit("[portal-screencast]");
    reveal_strlit("title = Requests screen capture through xdg-desktop-portal");
    reveal_strlit(
        "rationale = The ScreenCast, Screenshot and RemoteDesktop portals hand out screen \
            contents or input control after the desktop has asked the user. They are reached \
            over D-Bus by name, so the interface name in read-only data is the only trace that a \
            static look can find.",
    );
    reveal_strlit("strings =");
    reveal_strlit("  org.freedesktop.portal.ScreenCast");
    reveal_strlit("  org.freedesktop.portal.Screenshot");
    reveal_strlit("  org.freedesktop.portal.RemoteDesktop");
    assert(all[61].take(5) =~= "title"@);
    assert(all[62].take(9) =~= "rationale"@);
    assert(mark(all[60]) == marks[60]);
    assert(is_word_line(all[64]) && mark(all[64]) == marks[64]);
    assert(is_word_line(all[65]) && mark(all[65]) == marks[65]);
    assert(is_word_line(all[66]) && mark(all[66]) == marks[66]);
    assert(!is_name(all[61]) && !is_name(all[62]) && !is_name(all[63]));
    assert forall|i: int| e.from + 4 <= i < e.to implies is_word_line(#[trigger] all[i]) by {
        assert(i == 60 || i == 61 || i == 62 || i == 63 || i == 64 || i == 65
            || i == 66);
    }
    assert forall|i: int| e.from <= i < e.to && is_name(#[trigger] all[i]) implies mark(all[i])
        == marks[i] by {
        assert(i == 60 || i == 61 || i == 62 || i == 63 || i == 64 || i == 65
            || i == 66);
    }
    assert(entry_cap(all, e).id =~= "portal-screencast"@);
}

proof fn lemma_input_record()
    ensures
        is_entry(builtin_lines(), builtin_entries()[6]),
        has_marks(builtin_lines(), builtin_marks(), builtin_entries()[6]),
        entry_cap(builtin_lines(), builtin_entries()[6]).id == "input-record"@,
{
    let all = builtin_lines();
    let marks = builtin_marks();
    let e = builtin_entries()[6];
    reveal(builtin_lines);
    reveal(builtin_marks);
    reveal(is_entry);
    reveal(has_marks);
    reveal_strlit("title");
    reveal_strlit("rationale");
    reveal_strlit("input-record");
    reveal_strlit("[input-record]");
    reveal_strlit("title = Records keyboard and pointer input of the whole session");
    reveal_strlit(
        "rationale = The Record extension delivers every key press and pointer event of the \
            session no matter which window has the focus, and polling the keymap gives nearly \
            the same. Few applications have an honest need for it; global hotkey helpers and \
            test tools are the usual exceptions.",
    );
    reveal_strlit("symbols =");
    reveal_strlit("  XRecordAllocRange");
    reveal_strlit("  XRecordCreateContext");
    reveal_strlit("  XRecordEnableContext");
    reveal_strlit("  XRecordEnableContextAsync");
    reveal_strlit("  xcb_record_create_context");
    reveal_strlit("  xcb_record_enable_context");
    reveal_strlit("  XQueryKeymap");
    reveal_strlit("  xcb_query_keymap");
    reveal_strlit("  xcb_query_keymap_unchecked");
    assert(all[68].take(5) =~= "title"@);
    assert(all[69].take(9) =~= "rationale"@);
    assert(mark(all[67]) == marks[67]);
    assert(is_word_line(all[71]) && mark(all[71]) == marks[71]);
    assert(is_word_line(all[72]) && mark(all[72]) == marks[72]);
    assert(is_word_line(all[73]) && mark(all[73]) == marks[73]);
    assert(is_word_line(all[74]) && mark(all[74]) == marks[74]);
    assert(is_word_line(all[75]) && mark(all[75]) == marks[75]);
    assert(is_word_line(all[76]) && mark(all[76]) == marks[76]);
    assert(is_word_line(all[77]) && mark(all[77]) == marks[77]);
    assert(is_word_line(all[78]) && mark(all[78]) == marks[78]);
    assert(is_word_line(all[79]) && mark(all[79]) == marks[79]);
    assert(!is_name(all[68]) && !is_name(all[69]) && !is_name(all[70]));
    assert forall|i: int| e.from + 4 <= i < e.to implies is_word_line(#[trigger] all[i]) by {
        assert(i == 67 || i == 68 || i == 69 || i == 70 || i == 71 || i == 72
            || i == 73 || i == 74 || i == 75 || i == 76 || i == 77 || i == 78
            || i == 79);
    }
    assert forall|i: int| e.from <= i < e.to && is_name(#[trigger] all[i]) implies mark(all[i])
        == marks[i] by {
        assert(i == 67 || i == 68 || i == 69 || i == 70 || i == 71 || i == 72
            || i == 73 || i == 74 || i == 75 || i == 76 || i == 77 || i == 78
            || i == 79);
    }
    assert(entry_cap(all, e).id =~= "input-record"@);
}

proof fn lemma_keyboard_grab()
    ensures
        is_entry(builtin_lines(), builtin_entries()[7]),
        has_marks(builtin_lines(), builtin_marks(), builtin_entries()[7]),
        entry_cap(builtin_lines(), builtin_entries()[7]).id == "keyboard-grab"@,
{
    let all = builtin_lines();
    let marks = builtin_marks();
    let e = builtin_entries()[7];
    reveal(builtin_lines);
    reveal(builtin_marks);
    reveal(is_entry);
    reveal(has_marks);
    reveal_strlit("title");
    reveal_strlit("rationale");
    reveal_strlit("keyboard-grab");
    reveal_strlit("[keyboard-grab]");
    reveal_strlit("title = Grabs the keyboard or individual key combinations globally");
    reveal_strlit(
        "rationale = A grab sends key events to the grabbing client instead of the focused \
            window, for the whole keyboard or for single combinations. Menus, lock screens and \
            global shortcuts grab briefly and legitimately; a long grab reads whatever the user \
            types meanwhile.",
    );
    reveal_strlit("symbols =");
    reveal_strlit("  XGrabKey");
    reveal_strlit("  XGrabKeyboard");
    reveal_strlit("  xcb_grab_key");
    reveal_strlit("  xcb_grab_key_checked");
    reveal_strlit("  xcb_grab_keyboard");
    reveal_strlit("  xcb_grab_keyboard_unchecked");
    reveal_strlit("  gdk_keyboard_grab");
    reveal_strlit("  gdk_device_grab");
    reveal_strlit("  gdk_seat_grab");
    assert(all[81].take(5) =~= "title"@);
    assert(all[82].take(9) =~= "rationale"@);
    assert(mark(all[80]) == marks[80]);
    assert(is_word_line(all[84]) && mark(all[84]) == marks[84]);
    assert(is_word_line(all[85]) && mark(all[85]) == marks[85]);
    assert(is_word_line(all[86]) && mark(all[86]) == marks[86]);
    assert(is_word_line(all[87]) && mark(all[87]) == marks[87]);
    assert(is_word_line(all[88]) && mark(all[88]) == marks[88]);
    assert(is_word_line(all[89]) && mark(all[89]) == marks[89]);
    assert(is_word_line(all[90]) && mark(all[90]) == marks[90]);
    assert(is_word_line(all[91]) && mark(all[91]) == marks[91]);
    assert(is_word_line(all[92]) && mark(all[92]) == marks[92]);
    assert(!is_name(all[81]) && !is_name(all[82]) && !is_name(all[83]));
    assert forall|i: int| e.from + 4 <= i < e.to implies is_word_line(#[trigger] all[i]) by {
        assert(i == 80 || i == 81 || i == 82 || i == 83 || i == 84 || i == 85
            || i == 86 || i == 87 || i == 88 || i == 89 || i == 90 || i == 91
            || i == 92);
    }
    assert forall|i: int| e.from <= i < e.to && is_name(#[trigger] all[i]) implies mark(all[i])
        == marks[i] by {
        assert(i == 80 || i == 81 || i == 82 || i == 83 || i == 84 || i == 85
            || i == 86 || i == 87 || i == 88 || i == 89 || i == 90 || i == 91
            || i == 92);
    }
    assert(entry_cap(all, e).id =~= "keyboard-grab"@);
}

proof fn lemma_xi2_event_selection()
    ensures
        is_entry(builtin_lines(), builtin_entries()[8]),
        has_marks(builtin_lines(), builtin_marks(), builtin_entries()[8]),
        entry_cap(builtin_lines(), builtin_entries()[8]).id == "xi2-event-selection"@,
{
    let all = builtin_lines();
    let marks = builtin_marks();
    let e = builtin_entries()[8];
    reveal(builtin_lines);
    reveal(builtin_marks);
    reveal(is_entry);
    reveal(has_marks);
    reveal_strlit("title");
    reveal_strlit("rationale");
    reveal_strlit("xi2-event-selection");
    reveal_strlit("[xi2-event-selection]");
    reveal_strlit("title = Selects XInput2 events, possibly raw input of the whole session");
    reveal_strlit(
        "rationale = With the right mask XInput2 reports raw key and pointer events for all \
            windows. The mask is built at run time, so the import alone cannot tell ordinary \
            touch and scroll handling, which every modern toolkit does this way, from listening \
            to the entire session.",
    );
    reveal_strlit("symbols =");
    reveal_strlit("  XISelectEvents");
    reveal_strlit("  xcb_input_xi_select_events");
    reveal_strlit("  xcb_input_xi_select_events_checked");
    assert(all[94].take(5) =~= "title"@);
    assert(all[95].take(9) =~= "rationale"@);
    assert(mark(all[93]) == marks[93]);
    assert(is_word_line(all[97]) && mark(all[97]) == marks[97]);
    assert(is_word_line(all[98]) && mark(all[98]) == marks[98]);
    assert(is_word_line(all[99]) && mark(all[99]) == marks[99]);
    assert(!is_name(all[94]) && !is_name(all[95]) && !is_name(all[96]));
    assert forall|i: int| e.from + 4 <= i < e.to implies is_word_line(#[trigger] all[i]) by {
        assert(i == 93 || i == 94 || i == 95 || i == 96 || i == 97 || i == 98
            || i == 99);
    }
    assert forall|i: int| e.from <= i < e.to && is_name(#[trigger] all[i]) implies mark(all[i])
        == marks[i] by {
        assert(i == 93 || i == 94 || i == 95 || i == 96 || i == 97 || i == 98
            || i == 99);
    }
    assert(entry_cap(all, e).id =~= "xi2-event-selection"@);
}

proof fn lemma_input_injection()
    ensures
        is_entry(builtin_lines(), builtin_entries()[9]),
        has_marks(builtin_lines(), builtin_marks(), builtin_entries()[9]),
        entry_cap(builtin_lines(), builtin_entries()[9]).id == "input-injection"@,
{
    let all = builtin_lines();
    let marks = builtin_marks();
    let e = builtin_entries()[9];
    reveal(builtin_lines);
    reveal(builtin_marks);
    reveal(is_entry);
    reveal(has_marks);
    reveal_strlit("title");
    reveal_strlit("rationale");
    reveal_strlit("input-injection");
    reveal_strlit("[input-injection]");
    reveal_strlit("title = Injects synthetic keyboard or pointer input");
    reveal_strlit(
        "rationale = The XTest extension and libei create key presses and pointer motion that \
            other clients cannot tell from real ones, so a component with them can type into any \
            window. Remote control software and accessibility tools need it, most other \
            applications do not.",
    );
    reveal_strlit("symbols =");
    reveal_strlit("  XTestFakeKeyEvent");
    reveal_strlit("  XTestFakeButtonEvent");
    reveal_strlit("  XTestFakeMotionEvent");
    reveal_strlit("  XTestFakeRelativeMotionEvent");
    reveal_strlit("  xcb_test_fake_input");
    reveal_strlit("  xcb_test_fake_input_checked");
    reveal_strlit("  ei_new_sender");
    reveal_strlit("  ei_device_keyboard_key");
    reveal_strlit("  ei_device_pointer_motion");
    assert(all[101].take(5) =~= "title"@);
    assert(all[102].take(9) =~= "rationale"@);
    assert(mark(all[100]) == marks[100]);
    assert(is_word_line(all[104]) && mark(all[104]) == marks[104]);
    assert(is_word_line(all[105]) && mark(all[105]) == marks[105]);
    assert(is_word_line(all[106]) && mark(all[106]) == marks[106]);
    assert(is_word_line(all[107]) && mark(all[107]) == marks[107]);
    assert(is_word_line(all[108]) && mark(all[108]) == marks[108]);
    assert(is_word_line(all[109]) && mark(all[109]) == marks[109]);
    assert(is_word_line(all[110]) && mark(all[110]) == marks[110]);
    assert(is_word_line(all[111]) && mark(all[111]) == marks[111]);
    assert(is_word_line(all[112]) && mark(all[112]) == marks[112]);
    assert(!is_name(all[101]) && !is_name(all[102]) && !is_name(all[103]));
    assert forall|i: int| e.from + 4 <= i < e.to implies is_word_line(#[trigger] all[i]) by {
        assert(i == 100 || i == 101 || i == 102 || i == 103 || i == 104 || i == 105
            || i == 106 || i == 107 || i == 108 || i == 109 || i == 110 || i == 111
            || i == 112);
    }
    assert forall|i: int| e.from <= i < e.to && is_name(#[trigger] all[i]) implies mark(all[i])
        == marks[i] by {
        assert(i == 100 || i == 101 || i == 102 || i == 103 || i == 104 || i == 105
            || i == 106 || i == 107 || i == 108 || i == 109 || i == 110 || i == 111
            || i == 112);
    }
    assert(entry_cap(all, e).id =~= "input-injection"@);
}

proof fn lemma_window_introspection()
    ensures
        is_entry(builtin_lines(), builtin_entries()[10]),
        has_marks(builtin_lines(), builtin_marks(), builtin_entries()[10]),
        entry_cap(builtin_lines(), builtin_entries()[10]).id == "window-introspection"@,
{
    let all = builtin_lines();
    let marks = builtin_marks();
    let e = builtin_entries()[10];
    reveal(builtin_lines);
    reveal(builtin_marks);
    reveal(is_entry);
    reveal(has_marks);
    reveal_strlit("title");
    reveal_strlit("rationale");
    reveal_strlit("window-introspection");
    reveal_strlit("[window-introspection]");
    reveal_strlit("title = Enumerates other clients' windows and reads their titles");
    reveal_strlit(
        "rationale = Walking the window tree and reading properties shows which applications \
            are open and what their titles say, which often names documents, chat partners or \
            web pages. Window managers and toolkits walk the tree too, so this is context for \
            other findings more than proof.",
    );
    reveal_strlit("symbols =");
    reveal_strlit("  XQueryTree");
    reveal_strlit("  XFetchName");
    reveal_strlit("  XGetWMName");
    reveal_strlit("  xcb_query_tree");
    reveal_strlit("  xcb_query_tree_unchecked");
    reveal_strlit("  xcb_ewmh_get_client_list");
    reveal_strlit("  xcb_ewmh_get_wm_name");
    assert(all[114].take(5) =~= "title"@);
    assert(all[115].take(9) =~= "rationale"@);
    assert(mark(all[113]) == marks[113]);
    assert(is_word_line(all[117]) && mark(all[117]) == marks[117]);
    assert(is_word_line(all[118]) && mark(all[118]) == marks[118]);
    assert(is_word_line(all[119]) && mark(all[119]) == marks[119]);
    assert(is_word_line(all[120]) && mark(all[120]) == marks[120]);
    assert(is_word_line(all[121]) && mark(all[121]) == marks[121]);
    assert(is_word_line(all[122]) && mark(all[122]) == marks[122]);
    assert(is_word_line(all[123]) && mark(all[123]) == marks[123]);
    assert(!is_name(all[114]) && !is_name(all[115]) && !is_name(all[116]));
    assert forall|i: int| e.from + 4 <= i < e.to implies is_word_line(#[trigger] all[i]) by {
        assert(i == 113 || i == 114 || i == 115 || i == 116 || i == 117 || i == 118
            || i == 119 || i == 120 || i == 121 || i == 122 || i == 123);
    }
    assert forall|i: int| e.from <= i < e.to && is_name(#[trigger] all[i]) implies mark(all[i])
        == marks[i] by {
        assert(i == 113 || i == 114 || i == 115 || i == 116 || i == 117 || i == 118
            || i == 119 || i == 120 || i == 121 || i == 122 || i == 123);
    }
    assert(entry_cap(all, e).id =~= "window-introspection"@);
}

/// The lines of the database are entries, and no name has two of them.
proof fn lemma_builtin_lines()
    ensures
        are_entries(builtin_lines(), builtin_entries()),
        names_differ(builtin_lines()),
{
    let all = builtin_lines();
    let marks = builtin_marks();
    let entries = builtin_entries();
    lemma_selection_read();
    lemma_selection_watch();
    lemma_screen_capture();
    lemma_screen_change_tracking();
    lemma_pipewire_stream();
    lemma_portal_screencast();
    lemma_input_record();
    lemma_keyboard_grab();
    lemma_xi2_event_selection();
    lemma_input_injection();
    lemma_window_introspection();
    lemma_builtin_marks();
    assert forall|k: int| 0 <= k < entries.len() implies is_entry(all, #[trigger] entries[k])
        && has_marks(all, marks, entries[k]) by {
        assert(k == 0 || k == 1 || k == 2 || k == 3 || k == 4 || k == 5
            || k == 6 || k == 7 || k == 8 || k == 9 || k == 10);
    }
    lemma_marks_tell(all, entries, marks);
}

proof fn lemma_builtin_ids()
    ensures
        entry_caps(builtin_lines(), builtin_entries(), 11).map_values(|c: CapModel| c.id)
            == builtin_ids(),
{
    let caps = entry_caps(builtin_lines(), builtin_entries(), 11);
    lemma_selection_read();
    lemma_selection_watch();
    lemma_screen_capture();
    lemma_screen_change_tracking();
    lemma_pipewire_stream();
    lemma_portal_screencast();
    lemma_input_record();
    lemma_keyboard_grab();
    lemma_xi2_event_selection();
    lemma_input_injection();
    lemma_window_introspection();
    assert(caps.map_values(|c: CapModel| c.id) =~= builtin_ids());
}

proof fn lemma_builtin_marks()
    ensures
        builtin_marks().len() == 124,
        builtin_marks().no_duplicates(),
        builtin_lines().len() == 124,
{
    reveal(builtin_lines);
    reveal(builtin_marks);
}

/// The database that ships with the library parses, and its capabilities are those that
/// the library names.
pub proof fn law_builtin_database_is_sound()
    ensures
        db_model(builtin_text()) is Ok,
        db_model(builtin_text())->Ok_0.map_values(|c: CapModel| c.id) == builtin_ids(),
{
    lemma_builtin_lines();
    lemma_builtin_ids();
    lemma_database(builtin_lines(), builtin_entries());
}

} // verus!
