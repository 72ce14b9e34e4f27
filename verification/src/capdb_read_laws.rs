//! What the text of a capability database says, line by line.

use crate::capdb::{
    appended, at_word_end, db_model, first_repeat, flaw_from, is_id, key_named, last_mention,
    line_step, lines_from, mentions, with_last, CapModel, DbErrorModel, DbState, Key,
};
use crate::capdb_laws::{disjoint_lists, is_complete, law_parsed_databases_are_well_formed};
use crate::evidence_laws::is_blank;
use crate::text::{is_space, lemma_position_is, lines, pieces, trim, trim_start, words};
use vstd::prelude::*;

verus! {

/// A capability of which only the id is known.
pub open spec fn begun(id: Seq<char>) -> CapModel {
    CapModel {
        id,
        title: Seq::empty(),
        rationale: Seq::empty(),
        symbols: Seq::empty(),
        strings: Seq::empty(),
    }
}

/// Letters, digits and dashes, at least one.
pub open spec fn is_name(id: Seq<char>) -> bool {
    id.len() > 0 && forall|i: int|
        0 <= i < id.len() ==> 'a' <= #[trigger] id[i] <= 'z' || 'A' <= id[i] <= 'Z' || '0' <= id[i]
            <= '9' || id[i] == '-'
}

/// A line `[id]` starts a capability; an id that is taken is an error.
pub proof fn law_a_section_starts_a_capability(st: DbState, id: Seq<char>, line: nat)
    requires
        is_name(id),
    ensures
        (forall|i: int| 0 <= i < st.caps.len() ==> (#[trigger] st.caps[i]).id != id) ==> line_step(
            st,
            seq!['['] + id + seq![']'],
            line,
        ) == Ok::<DbState, DbErrorModel>(DbState { caps: st.caps.push(begun(id)), key: None }),
        (exists|i: int| 0 <= i < st.caps.len() && (#[trigger] st.caps[i]).id == id) ==> line_step(
            st,
            seq!['['] + id + seq![']'],
            line,
        ) == Err::<DbState, DbErrorModel>(DbErrorModel::Duplicate { line, name: id }),
{
    let raw = seq!['['] + id + seq![']'];
    lemma_trimmed(raw);
    assert(raw.subrange(1, raw.len() - 1) =~= id);
    assert('a' <= id[0] <= 'z' || 'A' <= id[0] <= 'Z' || '0' <= id[0] <= '9' || id[0] == '-');
    assert('a' <= id.last() <= 'z' || 'A' <= id.last() <= 'Z' || '0' <= id.last() <= '9'
        || id.last() == '-');
    lemma_trimmed(id);
    assert(is_id(id));
}

proof fn lemma_trimmed(s: Seq<char>)
    requires
        s.len() > 0,
        !is_space(s[0]),
        !is_space(s.last()),
    ensures
        trim(s) == s,
{
}

/// A text field grows by a blank and a text; an empty one becomes the text.
pub open spec fn grown(field: Seq<char>, value: Seq<char>) -> Seq<char> {
    if field.len() == 0 {
        value
    } else {
        field + seq![' '] + value
    }
}

/// What a value under a key does to the capability that is being read.
pub open spec fn takes(cap: CapModel, key: Key, value: Seq<char>, next: CapModel) -> bool {
    &&& next.id == cap.id
    &&& next.title == if key == Key::Title {
        grown(cap.title, value)
    } else {
        cap.title
    }
    &&& next.rationale == if key == Key::Rationale {
        grown(cap.rationale, value)
    } else {
        cap.rationale
    }
    &&& next.symbols == if key == Key::Symbols {
        cap.symbols + words(value)
    } else {
        cap.symbols
    }
    &&& next.strings == if key == Key::Strings {
        cap.strings + words(value)
    } else {
        cap.strings
    }
}

/// Only the last capability changes, by a value under a key, which stays the key.
pub open spec fn goes_on_with(
    r: Result<DbState, DbErrorModel>,
    st: DbState,
    key: Key,
    value: Seq<char>,
) -> bool {
    r matches Ok(next) && next.key == Some(key) && next.caps.len() == st.caps.len()
        && next.caps.drop_last() == st.caps.drop_last() && takes(
        st.caps.last(),
        key,
        value,
        next.caps.last(),
    )
}

proof fn lemma_takes(st: DbState, key: Key, value: Seq<char>)
    requires
        st.caps.len() > 0,
    ensures
        goes_on_with(
            Ok(
                DbState {
                    caps: with_last(st.caps, appended(st.caps.last(), key, value)),
                    key: Some(key),
                },
            ),
            st,
            key,
            value,
        ),
{
    let cap = st.caps.last();
    let next = appended(cap, key, value);
    assert(cap.title.push(' ') + value =~= cap.title + seq![' '] + value);
    assert(cap.rationale.push(' ') + value =~= cap.rationale + seq![' '] + value);
    assert(with_last(st.caps, next).drop_last() =~= st.caps.drop_last());
}

/// A key of the format and its name.
pub open spec fn is_key(name: Seq<char>, key: Key) -> bool {
    (name == "title"@ && key == Key::Title) || (name == "rationale"@ && key == Key::Rationale) || (
    name == "symbols"@ && key == Key::Symbols) || (name == "strings"@ && key == Key::Strings)
}

/// A line `key = value` gives the value to the last capability under the key, with or
/// without blanks around either. A key that the format does not have, and a key before
/// any capability, is an error on that line.
pub proof fn law_a_key_takes_its_value(st: DbState, head: Seq<char>, tail: Seq<char>, line: nat)
    requires
        head.len() > 0,
        !is_blank(head[0]),
        head[0] != '[' && head[0] != '#',
        !head.contains('='),
    ensures
        forall|key: Key| #[trigger]
            is_key(trim(head), key) && st.caps.len() > 0 ==> goes_on_with(
                line_step(st, head.push('=') + tail, line),
                st,
                key,
                trim(tail),
            ),
        st.caps.len() == 0 ==> line_step(st, head.push('=') + tail, line) == Err::<
            DbState,
            DbErrorModel,
        >(DbErrorModel::Syntax { line, message: "key outside of a [capability] section"@ }),
        st.caps.len() > 0 && (forall|key: Key| !#[trigger] is_key(trim(head), key)) ==> line_step(
            st,
            head.push('=') + tail,
            line,
        ) == Err::<DbState, DbErrorModel>(
            DbErrorModel::Syntax { line, message: "unknown key '"@ + trim(head) + "'"@ },
        ),
{
    let raw = head.push('=') + tail;
    let t = trim(raw);
    let cut = crate::text_laws::law_trimming_takes_blanks_off(raw);
    assert(raw[0] == head[0]);
    assert(raw[head.len() as int] == '=');
    assert(cut.0 == 0) by {
        if cut.0 > 0 {
            assert(is_blank(raw[0]));
        }
    }
    assert(cut.1 > head.len()) by {
        if cut.1 <= head.len() {
            assert(is_blank(raw[head.len() as int]));
        }
    }
    assert(t[0] == head[0]);
    let p = head.len() as int;
    assert forall|j: int| 0 <= j < p implies t[j] != '=' by {
        assert(t[j] == head[j]);
        assert(head.contains(head[j]));
    }
    assert(t[p] == '=');
    lemma_position_is(t, '=', p);
    assert(t.take(p) =~= head);
    let rest = t.skip(p + 1);
    assert(rest =~= tail.take(cut.1 - p - 1));
    assert(trim(rest) == trim(tail)) by {
        assert forall|i: int| rest.len() <= i < tail.len() implies is_space(#[trigger] tail[i]) by {
            assert(is_blank(raw[p + 1 + i]));
        }
        lemma_trim_prefix(tail, rest.len() as int);
    }
    lemma_key_words();
    assert forall|key: Key| #[trigger] is_key(trim(head), key) && st.caps.len() > 0 implies
        goes_on_with(line_step(st, raw, line), st, key, trim(tail)) by {
        assert(key_named(trim(head)) == Some(key));
        lemma_takes(st, key, trim(tail));
    }
    if st.caps.len() > 0 && (forall|key: Key| !#[trigger] is_key(trim(head), key)) {
        assert(!is_key(trim(head), Key::Title) && !is_key(trim(head), Key::Rationale) && !is_key(
            trim(head),
            Key::Symbols,
        ) && !is_key(trim(head), Key::Strings));
        assert(key_named(trim(head)) is None);
    }
}

proof fn lemma_key_words()
    ensures
        "title"@ != "rationale"@ && "title"@ != "symbols"@ && "title"@ != "strings"@,
        "rationale"@ != "symbols"@ && "rationale"@ != "strings"@,
        "symbols"@ != "strings"@,
{
    reveal_strlit("title");
    reveal_strlit("rationale");
    reveal_strlit("symbols");
    reveal_strlit("strings");
    assert("title"@.len() == 5 && "rationale"@.len() == 9 && "symbols"@.len() == 7
        && "strings"@.len() == 7);
    assert("symbols"@[1] == 'y' && "strings"@[1] == 't');
}

/// Blanks at the end make no difference to what is left of a text.
proof fn lemma_trim_prefix(s: Seq<char>, n: int)
    requires
        0 <= n <= s.len(),
        forall|i: int| n <= i < s.len() ==> is_space(#[trigger] s[i]),
    ensures
        trim(s.take(n)) == trim(s),
    decreases s.len() - n,
{
    if n < s.len() {
        let t = s.drop_last();
        assert(is_space(s[s.len() - 1]));
        assert(t.take(n) =~= s.take(n));
        assert forall|i: int| n <= i < t.len() implies is_space(#[trigger] t[i]) by {
            assert(is_space(s[i]));
        }
        lemma_trim_prefix(t, n);
        lemma_trim_drop(s);
    } else {
        assert(s.take(n) =~= s);
    }
}

proof fn lemma_trim_drop(s: Seq<char>)
    requires
        s.len() > 0,
        is_space(s.last()),
    ensures
        trim(s.drop_last()) == trim(s),
    decreases s.len(),
{
    let t = s.drop_last();
    if is_space(s[0]) {
        if s.len() == 1 {
            assert(s.drop_first() =~= Seq::<char>::empty());
            assert(t =~= Seq::<char>::empty());
        } else {
            assert(s.drop_first().drop_last() =~= t.drop_first());
            assert(s.drop_first().last() == s.last());
            lemma_trim_drop(s.drop_first());
            assert(t[0] == s[0]);
        }
    } else {
        assert(s.len() > 1);
        assert(t[0] == s[0]);
    }
}

/// A line that starts with a blank goes on with the key above it; without such a key it
/// is an error.
pub proof fn law_a_blank_continues_the_key(st: DbState, raw: Seq<char>, line: nat)
    requires
        raw.len() > 0,
        raw[0] == ' ' || raw[0] == '\t',
        trim(raw).len() > 0,
        trim(raw)[0] != '#',
    ensures
        st.key is Some && st.caps.len() > 0 ==> goes_on_with(
            line_step(st, raw, line),
            st,
            st.key->Some_0,
            trim(raw),
        ),
        st.key is None || st.caps.len() == 0 ==> line_step(st, raw, line) == Err::<
            DbState,
            DbErrorModel,
        >(DbErrorModel::Syntax { line, message: "continuation line without a key"@ }),
{
    if st.key is Some && st.caps.len() > 0 {
        lemma_takes(st, st.key->Some_0, trim(raw));
    }
}

/// States that follow each other as the lines of a text are read from the first on.
pub open spec fn is_reading(all: Seq<Seq<char>>, states: Seq<DbState>) -> bool {
    &&& 0 < states.len() <= all.len() + 1
    &&& states[0].caps.len() == 0
    &&& states[0].key is None
    &&& forall|i: int| 0 <= i < states.len() - 1 ==> #[trigger] is_read(all, states, i)
}

/// The `i`th line leads from one state to the next.
pub open spec fn is_read(all: Seq<Seq<char>>, states: Seq<DbState>, i: int) -> bool {
    line_step(states[i], all[i], (i + 1) as nat) == Ok::<DbState, DbErrorModel>(states[i + 1])
}

proof fn lemma_reading(all: Seq<Seq<char>>, states: Seq<DbState>, i: int)
    requires
        is_reading(all, states),
        0 <= i < states.len(),
    ensures
        lines_from(all, 0, DbState { caps: Seq::empty(), key: None }) == lines_from(
            all,
            i,
            states[i],
        ),
    decreases i,
{
    if i == 0 {
        assert(states[0].caps =~= Seq::<CapModel>::empty());
    } else {
        lemma_reading(all, states, i - 1);
        assert(is_read(all, states, i - 1));
    }
}

/// Capabilities that a database may have: ids, symbols and strings that do not repeat,
/// and in each a title, a rationale and something to look for.
pub open spec fn is_sound(caps: Seq<CapModel>) -> bool {
    &&& forall|i: int| 0 <= i < caps.len() ==> is_complete(#[trigger] caps[i])
    &&& disjoint_lists(caps.map_values(|c: CapModel| c.symbols))
    &&& disjoint_lists(caps.map_values(|c: CapModel| c.strings))
}

proof fn lemma_fresh(list: Seq<Seq<char>>, j: int, seen: Set<Seq<char>>)
    requires
        0 <= j,
        list.no_duplicates(),
        forall|k: int| j <= k < list.len() ==> !seen.contains(#[trigger] list[k]),
    ensures
        first_repeat(list, j, seen) is None,
    decreases list.len() - j,
{
    if j < list.len() {
        assert forall|k: int| j + 1 <= k < list.len() implies !seen.insert(list[j]).contains(
            #[trigger] list[k],
        ) by {
            assert(list[j] != list[k]);
        }
        lemma_fresh(list, j + 1, seen.insert(list[j]));
    }
}

/// The words that were seen are those that the first `i` capabilities list.
spec fn seen_in(lists: Seq<Seq<Seq<char>>>, i: int, seen: Set<Seq<char>>) -> bool {
    forall|w: Seq<char>| #[trigger]
        seen.contains(w) <==> exists|k: int| 0 <= k < i && (#[trigger] lists[k]).contains(w)
}

proof fn lemma_seen(lists: Seq<Seq<Seq<char>>>, i: int, seen: Set<Seq<char>>)
    requires
        0 <= i < lists.len(),
        disjoint_lists(lists),
        seen_in(lists, i, seen),
    ensures
        first_repeat(lists[i], 0, seen) is None,
        seen_in(lists, i + 1, seen.union(lists[i].to_set())),
{
    let list = lists[i];
    assert forall|k: int| 0 <= k < list.len() implies !seen.contains(#[trigger] list[k]) by {
        if seen.contains(list[k]) {
            let m = choose|m: int| 0 <= m < i && (#[trigger] lists[m]).contains(list[k]);
            assert(lists[i].contains(list[k]));
        }
    }
    lemma_fresh(list, 0, seen);
    let more = seen.union(list.to_set());
    assert forall|w: Seq<char>| #[trigger] more.contains(w) <==> exists|k: int|
        0 <= k < i + 1 && (#[trigger] lists[k]).contains(w) by {
        if seen.contains(w) {
            let m = choose|m: int| 0 <= m < i && (#[trigger] lists[m]).contains(w);
            assert(0 <= m < i + 1 && lists[m].contains(w));
        } else if more.contains(w) {
            assert(lists[i].contains(w));
        } else {
            assert forall|k: int| 0 <= k < i + 1 implies !(#[trigger] lists[k]).contains(w) by {
                if k == i && lists[k].contains(w) {
                    assert(list.to_set().contains(w));
                }
            }
        }
    }
}

proof fn lemma_no_flaw(
    all: Seq<Seq<char>>,
    caps: Seq<CapModel>,
    i: int,
    symbols: Set<Seq<char>>,
    strings: Set<Seq<char>>,
)
    requires
        0 <= i <= caps.len(),
        is_sound(caps),
        seen_in(caps.map_values(|c: CapModel| c.symbols), i, symbols),
        seen_in(caps.map_values(|c: CapModel| c.strings), i, strings),
    ensures
        flaw_from(all, caps, i, symbols, strings) is None,
    decreases caps.len() - i,
{
    if i < caps.len() {
        let a = caps.map_values(|c: CapModel| c.symbols);
        let b = caps.map_values(|c: CapModel| c.strings);
        assert(is_complete(caps[i]));
        lemma_seen(a, i, symbols);
        lemma_seen(b, i, strings);
        assert(a[i] == caps[i].symbols && b[i] == caps[i].strings);
        lemma_no_flaw(
            all,
            caps,
            i + 1,
            symbols.union(caps[i].symbols.to_set()),
            strings.union(caps[i].strings.to_set()),
        );
    }
}

/// A database is read line by line, and the capabilities that come out of the last line
/// are the database exactly when they are sound. The first line that cannot be read is
/// the error.
pub proof fn law_databases_are_read_line_by_line(text: Seq<char>, states: Seq<DbState>)
    requires
        is_reading(lines(text), states),
    ensures
        states.len() == lines(text).len() + 1 && is_sound(states.last().caps) ==> db_model(text)
            == Ok::<Seq<CapModel>, DbErrorModel>(states.last().caps),
        states.len() == lines(text).len() + 1 && !is_sound(states.last().caps) ==> db_model(
            text,
        ) is Err,
        states.len() <= lines(text).len() && line_step(
            states.last(),
            lines(text)[states.len() - 1],
            states.len(),
        ) is Err ==> db_model(text) == Err::<Seq<CapModel>, DbErrorModel>(
            line_step(states.last(), lines(text)[states.len() - 1], states.len())->Err_0,
        ),
{
    let all = lines(text);
    let n = states.len() - 1;
    lemma_reading(all, states, n);
    let caps = states.last().caps;
    if n == all.len() {
        if is_sound(caps) {
            assert(seen_in(caps.map_values(|c: CapModel| c.symbols), 0, Set::empty()));
            assert(seen_in(caps.map_values(|c: CapModel| c.strings), 0, Set::empty()));
            lemma_no_flaw(all, caps, 0, Set::empty(), Set::empty());
        } else if db_model(text) is Ok {
            law_parsed_databases_are_well_formed(text);
            assert(db_model(text)->Ok_0 == caps);
        }
    }
}

/// A capability without a title, without a rationale, or with neither symbols nor
/// strings is an error that names the capability and what it lacks, if all before it
/// are sound.
pub proof fn law_missing_fields_are_named(text: Seq<char>, states: Seq<DbState>, i: int)
    requires
        is_reading(lines(text), states),
        states.len() == lines(text).len() + 1,
        0 <= i < states.last().caps.len(),
        is_sound(states.last().caps.take(i)),
    ensures
        ({
            let cap = states.last().caps[i];
            &&& cap.title.len() == 0 ==> db_model(text) == Err::<Seq<CapModel>, DbErrorModel>(
                DbErrorModel::MissingField { capability: cap.id, field: "title" },
            )
            &&& cap.title.len() > 0 && cap.rationale.len() == 0 ==> db_model(text) == Err::<
                Seq<CapModel>,
                DbErrorModel,
            >(DbErrorModel::MissingField { capability: cap.id, field: "rationale" })
            &&& cap.title.len() > 0 && cap.rationale.len() > 0 && cap.symbols.len() == 0
                && cap.strings.len() == 0 ==> db_model(text) == Err::<Seq<CapModel>, DbErrorModel>(
                DbErrorModel::MissingField { capability: cap.id, field: "symbols or strings" },
            )
        }),
{
    let all = lines(text);
    lemma_reading(all, states, states.len() - 1);
    let caps = states.last().caps;
    let _ = lemma_flaw_to(all, caps, 0, i, Set::empty(), Set::empty());
}

proof fn lemma_flaw_to(
    all: Seq<Seq<char>>,
    caps: Seq<CapModel>,
    j: int,
    i: int,
    symbols: Set<Seq<char>>,
    strings: Set<Seq<char>>,
) -> (r: (Set<Seq<char>>, Set<Seq<char>>))
    requires
        0 <= j <= i < caps.len(),
        is_sound(caps.take(i)),
        seen_in(caps.take(i).map_values(|c: CapModel| c.symbols), j, symbols),
        seen_in(caps.take(i).map_values(|c: CapModel| c.strings), j, strings),
    ensures
        flaw_from(all, caps, j, symbols, strings) == flaw_from(all, caps, i, r.0, r.1),
        seen_in(caps.take(i).map_values(|c: CapModel| c.symbols), i, r.0),
        seen_in(caps.take(i).map_values(|c: CapModel| c.strings), i, r.1),
    decreases i - j,
{
    if j < i {
        let front = caps.take(i);
        let a = front.map_values(|c: CapModel| c.symbols);
        let b = front.map_values(|c: CapModel| c.strings);
        assert(is_complete(front[j]));
        lemma_seen(a, j, symbols);
        lemma_seen(b, j, strings);
        assert(a[j] == caps[j].symbols && b[j] == caps[j].strings);
        lemma_flaw_to(
            all,
            caps,
            j + 1,
            i,
            symbols.union(caps[j].symbols.to_set()),
            strings.union(caps[j].strings.to_set()),
        )
    } else {
        (symbols, strings)
    }
}

/// A line that is no comment and holds a word, set off by blanks and equals signs.
pub open spec fn line_names(line: Seq<char>, word: Seq<char>) -> bool {
    !(trim_start(line).len() > 0 && trim_start(line)[0] == '#') && pieces(
        line,
        |c: char| is_blank(c) || c == '=',
    ).contains(word)
}

/// The last line, counted from 1, that names a word; 0 where no line does.
pub open spec fn is_last_line(all: Seq<Seq<char>>, word: Seq<char>, line: nat) -> bool {
    &&& line <= all.len()
    &&& line > 0 ==> line_names(all[line - 1], word)
    &&& forall|k: int| line <= k < all.len() ==> !line_names(#[trigger] all[k], word)
}

proof fn lemma_last_mention(all: Seq<Seq<char>>, word: Seq<char>, n: int)
    requires
        0 <= n <= all.len(),
        forall|k: int| n <= k < all.len() ==> !line_names(#[trigger] all[k], word),
    ensures
        is_last_line(all, word, last_mention(all, word, n)),
    decreases n,
{
    if n > 0 {
        assert(at_word_end() =~= (|c: char| is_blank(c) || c == '='));
        assert(mentions(all[n - 1], word) == line_names(all[n - 1], word));
        if !mentions(all[n - 1], word) {
            lemma_last_mention(all, word, n - 1);
        }
    }
}

/// The `k`th word of a list is the first that the capabilities before list, or that
/// stands in the list itself before.
pub open spec fn repeats_first(lists: Seq<Seq<Seq<char>>>, i: int, k: int) -> bool {
    &&& 0 <= k < lists[i].len()
    &&& lists[i].take(k).no_duplicates()
    &&& forall|m: int, n: int| 0 <= m < i && 0 <= n < k ==> !lists[m].contains(lists[i][n])
    &&& lists[i].take(k).contains(lists[i][k]) || exists|m: int|
        0 <= m < i && (#[trigger] lists[m]).contains(lists[i][k])
}

proof fn lemma_first_repeat(list: Seq<Seq<char>>, j: int, k: int, seen: Set<Seq<char>>)
    requires
        0 <= j <= k < list.len(),
        list.take(k).no_duplicates(),
        forall|n: int| j <= n < k ==> !seen.contains(#[trigger] list[n]),
        seen.contains(list[k]) || exists|n: int| j <= n < k && #[trigger] list[n] == list[k],
    ensures
        first_repeat(list, j, seen) == Some(list[k]),
    decreases k - j,
{
    if j < k {
        assert forall|n: int| j + 1 <= n < k implies !seen.insert(list[j]).contains(
            #[trigger] list[n],
        ) by {
            assert(list.take(k)[j] != list.take(k)[n]);
        }
        lemma_first_repeat(list, j + 1, k, seen.insert(list[j]));
    }
}

proof fn lemma_repeat(
    front: Seq<Seq<Seq<char>>>,
    lists: Seq<Seq<Seq<char>>>,
    i: int,
    k: int,
    seen: Set<Seq<char>>,
)
    requires
        0 <= i < lists.len(),
        front == lists.take(i),
        seen_in(front, i, seen),
        repeats_first(lists, i, k),
    ensures
        first_repeat(lists[i], 0, seen) == Some(lists[i][k]),
{
    let list = lists[i];
    assert forall|m: int| 0 <= m < i implies #[trigger] front[m] == lists[m] by {}
    assert forall|n: int| 0 <= n < k implies !seen.contains(#[trigger] list[n]) by {
        if seen.contains(list[n]) {
            let m = choose|m: int| 0 <= m < i && (#[trigger] front[m]).contains(list[n]);
            assert(lists[m].contains(lists[i][n]));
        }
    }
    if list.take(k).contains(list[k]) {
        let n = choose|n: int| 0 <= n < k && list.take(k)[n] == list[k];
        assert(list[n] == list[k]);
    } else {
        let m = choose|m: int| 0 <= m < i && (#[trigger] lists[m]).contains(list[k]);
        assert(front[m].contains(list[k]));
    }
    lemma_first_repeat(list, 0, k, seen);
}

proof fn lemma_no_repeat(
    front: Seq<Seq<Seq<char>>>,
    lists: Seq<Seq<Seq<char>>>,
    i: int,
    seen: Set<Seq<char>>,
)
    requires
        0 <= i < lists.len(),
        front == lists.take(i),
        seen_in(front, i, seen),
        lists[i].no_duplicates(),
        forall|m: int, n: int|
            0 <= m < i && 0 <= n < lists[i].len() ==> !lists[m].contains(lists[i][n]),
    ensures
        first_repeat(lists[i], 0, seen) is None,
{
    let list = lists[i];
    assert forall|n: int| 0 <= n < list.len() implies !seen.contains(#[trigger] list[n]) by {
        if seen.contains(list[n]) {
            let m = choose|m: int| 0 <= m < i && (#[trigger] front[m]).contains(list[n]);
            assert(lists[m].contains(lists[i][n]));
        }
    }
    lemma_fresh(list, 0, seen);
}

/// A symbol or a string that is listed twice is an error that names the first word that
/// repeats, symbols before strings, and the last line that holds it.
pub proof fn law_repeated_words_are_named(text: Seq<char>, states: Seq<DbState>, i: int, k: int)
    requires
        is_reading(lines(text), states),
        states.len() == lines(text).len() + 1,
        0 <= i < states.last().caps.len(),
        is_sound(states.last().caps.take(i)),
        is_complete(states.last().caps[i]),
    ensures
        ({
            let symbols = states.last().caps.map_values(|c: CapModel| c.symbols);
            let strings = states.last().caps.map_values(|c: CapModel| c.strings);
            &&& repeats_first(symbols, i, k) ==> (db_model(text) matches Err(
                DbErrorModel::Duplicate { line, name },
            ) && name == symbols[i][k] && is_last_line(lines(text), name, line))
            &&& repeats_first(strings, i, k) && symbols[i].no_duplicates() && (forall|m: int, n: int|
                0 <= m < i && 0 <= n < symbols[i].len() ==> !symbols[m].contains(symbols[i][n]))
                ==> (db_model(text) matches Err(DbErrorModel::Duplicate { line, name }) && name
                == strings[i][k] && is_last_line(lines(text), name, line))
        }),
{
    let all = lines(text);
    lemma_reading(all, states, states.len() - 1);
    let caps = states.last().caps;
    let symbols = caps.map_values(|c: CapModel| c.symbols);
    let strings = caps.map_values(|c: CapModel| c.strings);
    let front = caps.take(i);
    let (a, b) = lemma_flaw_to(all, caps, 0, i, Set::empty(), Set::empty());
    assert(front.map_values(|c: CapModel| c.symbols) =~= symbols.take(i));
    assert(front.map_values(|c: CapModel| c.strings) =~= strings.take(i));
    if repeats_first(symbols, i, k) {
        lemma_repeat(symbols.take(i), symbols, i, k, a);
        lemma_last_mention(all, symbols[i][k], all.len() as int);
    } else if repeats_first(strings, i, k) && symbols[i].no_duplicates() && (forall|
        m: int,
        n: int,
    |
        0 <= m < i && 0 <= n < symbols[i].len() ==> !symbols[m].contains(symbols[i][n])) {
        lemma_no_repeat(symbols.take(i), symbols, i, a);
        lemma_repeat(strings.take(i), strings, i, k, b);
        lemma_last_mention(all, strings[i][k], all.len() as int);
    }
}

} // verus!
