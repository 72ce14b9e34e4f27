//! The capability database: which symbols and strings mean what.
//!
//! The format is a small INI dialect. `[id]` starts a capability, `key = value`
//! lines fill it, a line that starts with a blank continues the key above it,
//! and lines that start with `#` are comments.

use crate::builtin::{builtin_ids, builtin_text, write_builtin};
use crate::builtin_laws::law_builtin_database_is_sound;
use crate::order::views;
use crate::text::{
    alphanumeric, chars_of, copied, decimal, decimal_of, find_char, is_alphanumeric, is_space,
    is_text, lemma_pieces_step, lines, owned, pieces, position, push_chars, runs, same_chars,
    same_text, split_lines, split_words, string_of, texts, trim, trim_start, trimmed, trimmed_start,
    whitespace, words,
};
use crate::textmap::TextMap;
use vstd::prelude::*;
use vstd::slice::slice_subrange;

verus! {

#[derive(Debug, PartialEq, Eq)]
pub struct Capability {
    pub id: String,
    pub title: String,
    pub rationale: String,
    pub symbols: Vec<String>,
    pub strings: Vec<String>,
}

impl Clone for Capability {
    fn clone(&self) -> (r: Capability)
        ensures
            r@ == self@,
    {
        Capability {
            id: self.id.clone(),
            title: self.title.clone(),
            rationale: self.rationale.clone(),
            symbols: copied(&self.symbols),
            strings: copied(&self.strings),
        }
    }
}

/// A capability with its words as text.
pub struct CapModel {
    pub id: Seq<char>,
    pub title: Seq<char>,
    pub rationale: Seq<char>,
    pub symbols: Seq<Seq<char>>,
    pub strings: Seq<Seq<char>>,
}

impl View for Capability {
    type V = CapModel;

    open spec fn view(&self) -> CapModel {
        CapModel {
            id: self.id@,
            title: self.title@,
            rationale: self.rationale@,
            symbols: texts(self.symbols@),
            strings: texts(self.strings@),
        }
    }
}

#[derive(Debug, Clone, PartialEq, Eq)]
pub enum DbError {
    Syntax { line: usize, message: String },
    /// A capability id, symbol or string appears twice.
    Duplicate { line: usize, name: String },
    MissingField { capability: String, field: &'static str },
}

/// An error with its words as text.
pub enum DbErrorModel {
    Syntax { line: nat, message: Seq<char> },
    Duplicate { line: nat, name: Seq<char> },
    MissingField { capability: Seq<char>, field: &'static str },
}

impl View for DbError {
    type V = DbErrorModel;

    open spec fn view(&self) -> DbErrorModel {
        match *self {
            DbError::Syntax { line, message } => DbErrorModel::Syntax {
                line: line as nat,
                message: message@,
            },
            DbError::Duplicate { line, name } => DbErrorModel::Duplicate {
                line: line as nat,
                name: name@,
            },
            DbError::MissingField { capability, field } => DbErrorModel::MissingField {
                capability: capability@,
                field,
            },
        }
    }
}

/// The text of an error, as shown to the user.
pub open spec fn db_error_text(e: DbErrorModel) -> Seq<char> {
    match e {
        DbErrorModel::Syntax { line, message } => "line "@ + decimal(line) + ": "@ + message,
        DbErrorModel::Duplicate { line, name } => "line "@ + decimal(line) + ": '"@ + name
            + "' is listed twice"@,
        DbErrorModel::MissingField { capability, field } => "capability '"@ + capability
            + "' has no "@ + field@,
    }
}

impl DbError {
    /// A description of the error for the user.
    pub fn message(&self) -> (r: String)
        ensures
            r@ == db_error_text(self@),
    {
        let mut out = String::new();
        match self {
            DbError::Syntax { line, message } => {
                out.append("line ");
                out.append(decimal_of(*line as u64).as_str());
                out.append(": ");
                out.append(message.as_str());
            },
            DbError::Duplicate { line, name } => {
                out.append("line ");
                out.append(decimal_of(*line as u64).as_str());
                out.append(": '");
                out.append(name.as_str());
                out.append("' is listed twice");
            },
            DbError::MissingField { capability, field } => {
                out.append("capability '");
                out.append(capability.as_str());
                out.append("' has no ");
                out.append(field);
            },
        }
        out
    }
}

/// The keys of a capability section.
#[derive(Debug, Clone, Copy, PartialEq, Eq, Structural)]
pub enum Key {
    Title,
    Rationale,
    Symbols,
    Strings,
}

/// The key with the given name.
pub open spec fn key_named(name: Seq<char>) -> Option<Key> {
    if name == "title"@ {
        Some(Key::Title)
    } else if name == "rationale"@ {
        Some(Key::Rationale)
    } else if name == "symbols"@ {
        Some(Key::Symbols)
    } else if name == "strings"@ {
        Some(Key::Strings)
    } else {
        None
    }
}

fn find_key(name: &[char]) -> (r: Option<Key>)
    ensures
        r == key_named(name@),
{
    if is_text(name, "title") {
        Some(Key::Title)
    } else if is_text(name, "rationale") {
        Some(Key::Rationale)
    } else if is_text(name, "symbols") {
        Some(Key::Symbols)
    } else if is_text(name, "strings") {
        Some(Key::Strings)
    } else {
        None
    }
}

/// A text field with another line added to it.
pub open spec fn extended(field: Seq<char>, value: Seq<char>) -> Seq<char> {
    if field.len() == 0 {
        value
    } else {
        field.push(' ') + value
    }
}

/// A capability with a value added to one of its keys.
pub open spec fn appended(cap: CapModel, key: Key, value: Seq<char>) -> CapModel {
    match key {
        Key::Title => CapModel { title: extended(cap.title, value), ..cap },
        Key::Rationale => CapModel { rationale: extended(cap.rationale, value), ..cap },
        Key::Symbols => CapModel { symbols: cap.symbols + words(value), ..cap },
        Key::Strings => CapModel { strings: cap.strings + words(value), ..cap },
    }
}

fn extend_text(field: &mut String, value: &[char])
    ensures
        final(field)@ == extended(old(field)@, value@),
{
    if field.as_str().unicode_len() > 0 {
        field.push(' ');
    } else {
        assert(field@ + value@ =~= value@);
    }
    push_chars(field, value);
}

fn extend_words(list: &mut Vec<String>, value: &[char])
    ensures
        texts(final(list)@) == texts(old(list)@) + words(value@),
{
    let parts = split_words(value);
    let ghost before = texts(list@);
    let ghost all = words(value@);
    let mut i: usize = 0;
    assert(texts(list@) =~= before + all.take(0));
    while i < parts.len()
        invariant
            i <= parts@.len(),
            runs(parts@) == all,
            texts(list@) == before + all.take(i as int),
        decreases parts@.len() - i,
    {
        let ghost now = texts(list@);
        let word = string_of(parts[i]);
        assert(all[i as int] == word@);
        list.push(word);
        assert(texts(list@) =~= now.push(word@));
        assert(before + all.take(i + 1) =~= (before + all.take(i as int)).push(word@));
        i = i + 1;
    }
    assert(all.take(all.len() as int) =~= all);
}

fn append_value(cap: &mut Capability, key: Key, value: &[char])
    ensures
        final(cap)@ == appended(old(cap)@, key, value@),
{
    match key {
        Key::Title => extend_text(&mut cap.title, value),
        Key::Rationale => extend_text(&mut cap.rationale, value),
        Key::Symbols => extend_words(&mut cap.symbols, value),
        Key::Strings => extend_words(&mut cap.strings, value),
    }
}

/// What has been read of a database: its capabilities so far, and the key that a
/// continuation line would extend.
pub struct DbState {
    pub caps: Seq<CapModel>,
    pub key: Option<Key>,
}

/// The last capability replaced.
pub open spec fn with_last(caps: Seq<CapModel>, cap: CapModel) -> Seq<CapModel> {
    caps.update(caps.len() - 1, cap)
}

/// Letters, digits and dashes, at least one.
pub open spec fn is_id(id: Seq<char>) -> bool {
    id.len() > 0 && forall|i: int|
        0 <= i < id.len() ==> is_alphanumeric(#[trigger] id[i]) || id[i] == '-'
}

pub open spec fn has_id(caps: Seq<CapModel>, id: Seq<char>) -> bool {
    exists|i: int| 0 <= i < caps.len() && (#[trigger] caps[i]).id == id
}

pub open spec fn new_cap(id: Seq<char>) -> CapModel {
    CapModel {
        id,
        title: Seq::empty(),
        rationale: Seq::empty(),
        symbols: Seq::empty(),
        strings: Seq::empty(),
    }
}

pub open spec fn syntax_error(line: nat, message: Seq<char>) -> Result<DbState, DbErrorModel> {
    Err(DbErrorModel::Syntax { line, message })
}

/// A line that starts with a blank.
pub open spec fn continuation_step(st: DbState, t: Seq<char>, line: nat) -> Result<
    DbState,
    DbErrorModel,
> {
    match st.key {
        Some(key) if st.caps.len() > 0 => Ok(
            DbState { caps: with_last(st.caps, appended(st.caps.last(), key, t)), key: st.key },
        ),
        _ => syntax_error(line, "continuation line without a key"@),
    }
}

/// A line that starts with an opening bracket.
pub open spec fn section_step(caps: Seq<CapModel>, t: Seq<char>, line: nat) -> Result<
    DbState,
    DbErrorModel,
> {
    if t.len() < 2 || t.last() != ']' {
        syntax_error(line, "section header must end with ']'"@)
    } else {
        let id = trim(t.subrange(1, t.len() - 1));
        if !is_id(id) {
            syntax_error(line, "invalid capability id '"@ + id + "'"@)
        } else if has_id(caps, id) {
            Err(DbErrorModel::Duplicate { line, name: id })
        } else {
            Ok(DbState { caps: caps.push(new_cap(id)), key: None })
        }
    }
}

/// A line that gives a key a value.
pub open spec fn key_step(st: DbState, t: Seq<char>, line: nat) -> Result<DbState, DbErrorModel> {
    let p = position(t, '=');
    if p >= t.len() {
        syntax_error(line, "expected 'key = value'"@)
    } else if st.caps.len() == 0 {
        syntax_error(line, "key outside of a [capability] section"@)
    } else {
        let name = trim(t.take(p));
        match key_named(name) {
            Some(key) => Ok(
                DbState {
                    caps: with_last(st.caps, appended(st.caps.last(), key, trim(t.skip(p + 1)))),
                    key: Some(key),
                },
            ),
            None => syntax_error(line, "unknown key '"@ + name + "'"@),
        }
    }
}

/// What one line does.
pub open spec fn line_step(st: DbState, raw: Seq<char>, line: nat) -> Result<
    DbState,
    DbErrorModel,
> {
    let t = trim(raw);
    if t.len() == 0 || t[0] == '#' {
        Ok(st)
    } else if raw[0] == ' ' || raw[0] == '\t' {
        continuation_step(st, t, line)
    } else if t[0] == '[' {
        section_step(st.caps, t, line)
    } else {
        key_step(st, t, line)
    }
}

/// What the lines from the `i`th on do.
pub open spec fn lines_from(all: Seq<Seq<char>>, i: int, st: DbState) -> Result<
    DbState,
    DbErrorModel,
>
    decreases all.len() - i,
{
    if i >= all.len() {
        Ok(st)
    } else {
        match line_step(st, all[i], (i + 1) as nat) {
            Err(e) => Err(e),
            Ok(next) => lines_from(all, i + 1, next),
        }
    }
}

fn syntax<T>(line: usize, message: &str) -> (r: Result<T, DbError>)
    ensures
        r matches Err(e) && e@ == (DbErrorModel::Syntax { line: line as nat, message: message@ }),
{
    Err(DbError::Syntax { line, message: owned(message) })
}

/// A syntax error that quotes a piece of the line.
fn syntax_quoting<T>(line: usize, message: &str, piece: &[char]) -> (r: Result<T, DbError>)
    ensures
        r matches Err(e) && e@ == (DbErrorModel::Syntax {
            line: line as nat,
            message: message@ + piece@ + "'"@,
        }),
{
    let mut text = owned(message);
    push_chars(&mut text, piece);
    text.append("'");
    Err(DbError::Syntax { line, message: text })
}

fn valid_id(id: &[char]) -> (r: bool)
    ensures
        r == is_id(id@),
{
    if id.len() == 0 {
        return false;
    }
    let mut i: usize = 0;
    while i < id.len()
        invariant
            i <= id@.len(),
            forall|j: int| 0 <= j < i ==> is_alphanumeric(#[trigger] id@[j]) || id@[j] == '-',
        decreases id@.len() - i,
    {
        if !alphanumeric(id[i]) && id[i] != '-' {
            return false;
        }
        i = i + 1;
    }
    true
}

fn id_taken(caps: &Vec<Capability>, id: &[char]) -> (r: bool)
    ensures
        r == has_id(views(caps@), id@),
{
    let mut i: usize = 0;
    while i < caps.len()
        invariant
            i <= caps@.len(),
            forall|j: int| 0 <= j < i ==> (#[trigger] views(caps@)[j]).id != id@,
        decreases caps@.len() - i,
    {
        if is_text(id, caps[i].id.as_str()) {
            assert(views(caps@)[i as int].id == id@);
            return true;
        }
        assert(views(caps@)[i as int].id != id@);
        i = i + 1;
    }
    false
}

/// Adds a value to the last capability.
fn append_to_last(caps: &mut Vec<Capability>, key: Key, value: &[char])
    requires
        old(caps)@.len() > 0,
    ensures
        views(final(caps)@) == with_last(
            views(old(caps)@),
            appended(views(old(caps)@).last(), key, value@),
        ),
{
    let last: usize = caps.len() - 1;
    append_value(&mut caps[last], key, value);
    assert(views(caps@) =~= with_last(
        views(old(caps)@),
        appended(views(old(caps)@).last(), key, value@),
    ));
}

/// Reads a line that starts with an opening bracket.
fn read_section(caps: &mut Vec<Capability>, t: &[char], line: usize) -> (r: Result<(), DbError>)
    requires
        t@.len() > 0,
    ensures
        match r {
            Ok(_) => section_step(views(old(caps)@), t@, line as nat) == Ok::<
                DbState,
                DbErrorModel,
            >(DbState { caps: views(final(caps)@), key: None }),
            Err(e) => section_step(views(old(caps)@), t@, line as nat) == Err::<
                DbState,
                DbErrorModel,
            >(e@),
        },
{
    if t.len() < 2 || t[t.len() - 1] != ']' {
        return syntax(line, "section header must end with ']'");
    }
    let id = trimmed(slice_subrange(t, 1, t.len() - 1));
    if !valid_id(id) {
        return syntax_quoting(line, "invalid capability id '", id);
    }
    if id_taken(caps, id) {
        return Err(DbError::Duplicate { line, name: string_of(id) });
    }
    let cap = Capability {
        id: string_of(id),
        title: String::new(),
        rationale: String::new(),
        symbols: Vec::new(),
        strings: Vec::new(),
    };
    proof {
        let fresh = new_cap(id@);
        assert(cap@.title =~= fresh.title);
        assert(cap@.rationale =~= fresh.rationale);
        assert(cap@.symbols =~= fresh.symbols);
        assert(cap@.strings =~= fresh.strings);
    }
    caps.push(cap);
    assert(views(caps@) =~= views(old(caps)@).push(cap@));
    Ok(())
}

/// Reads one line.
fn read_line(caps: &mut Vec<Capability>, key: Option<Key>, raw: &[char], line: usize) -> (r: Result<
    Option<Key>,
    DbError,
>)
    ensures
        match r {
            Ok(next) => line_step(DbState { caps: views(old(caps)@), key }, raw@, line as nat)
                == Ok::<DbState, DbErrorModel>(DbState { caps: views(final(caps)@), key: next }),
            Err(e) => line_step(DbState { caps: views(old(caps)@), key }, raw@, line as nat)
                == Err::<DbState, DbErrorModel>(e@),
        },
{
    let t = trimmed(raw);
    if t.len() == 0 || t[0] == '#' {
        return Ok(key);
    }
    proof {
        lemma_trim_nonempty(raw@);
    }
    if raw[0] == ' ' || raw[0] == '\t' {
        return match key {
            Some(k) if caps.len() > 0 => {
                append_to_last(caps, k, t);
                Ok(key)
            },
            _ => syntax(line, "continuation line without a key"),
        };
    }
    if t[0] == '[' {
        read_section(caps, t, line)?;
        return Ok(None);
    }
    let p: usize = find_char(t, '=');
    if p >= t.len() {
        return syntax(line, "expected 'key = value'");
    }
    if caps.len() == 0 {
        return syntax(line, "key outside of a [capability] section");
    }
    let name = trimmed(slice_subrange(t, 0, p));
    let value = trimmed(slice_subrange(t, p + 1, t.len()));
    assert(t@.subrange(0, p as int) =~= t@.take(p as int));
    assert(t@.subrange(p + 1, t@.len() as int) =~= t@.skip(p + 1));
    match find_key(name) {
        Some(k) => {
            append_to_last(caps, k, value);
            Ok(Some(k))
        },
        None => syntax_quoting(line, "unknown key '", name),
    }
}

/// Only a text with characters is left with some by trimming.
proof fn lemma_trim_nonempty(s: Seq<char>)
    requires
        trim(s).len() > 0,
    ensures
        s.len() > 0,
{
    if s.len() == 0 {
        assert(trim_start(s).len() == 0);
    }
}

/// The separator test for the words of a line: whitespace or an equals sign.
pub open spec fn at_word_end() -> spec_fn(char) -> bool {
    |c: char| is_space(c) || c == '='
}

/// A line that is no comment and has the given word.
pub open spec fn mentions(line: Seq<char>, word: Seq<char>) -> bool {
    !(trim_start(line).len() > 0 && trim_start(line)[0] == '#') && pieces(
        line,
        at_word_end(),
    ).contains(word)
}

/// The number of the last of the first `n` lines that mentions a word, or 0.
pub open spec fn last_mention(all: Seq<Seq<char>>, word: Seq<char>, n: int) -> nat
    decreases n,
{
    if n <= 0 {
        0
    } else if mentions(all[n - 1], word) {
        n as nat
    } else {
        last_mention(all, word, n - 1)
    }
}

fn has_word(line: &[char], word: &[char]) -> (r: bool)
    ensures
        r == pieces(line@, at_word_end()).contains(word@),
{
    let mut start: usize = 0;
    let mut i: usize = 0;
    let ghost cut = at_word_end();
    let ghost mut done: Seq<Seq<char>> = Seq::empty();
    let mut found = false;
    assert(line@.take(0) =~= Seq::empty());
    assert(pieces(line@.take(0), cut) =~= done.push(line@.subrange(0, 0)));
    while i < line.len()
        invariant
            start <= i <= line@.len(),
            cut == at_word_end(),
            pieces(line@.take(i as int), cut) == done.push(line@.subrange(start as int, i as int)),
            found == done.contains(word@),
        decreases line@.len() - i,
    {
        proof {
            lemma_pieces_step(line@, cut, start as int, i as int);
        }
        if whitespace(line[i]) || line[i] == '=' {
            let piece = slice_subrange(line, start, i);
            let same = same_chars(piece, word);
            proof {
                lemma_contains_push(done, piece@, word@);
                done = done.push(piece@);
            }
            found = found || same;
            start = i + 1;
        } else {
            assert(pieces(line@.take(i as int), cut).drop_last() =~= done);
        }
        i = i + 1;
    }
    assert(line@.take(i as int) =~= line@);
    let piece = slice_subrange(line, start, i);
    proof {
        lemma_contains_push(done, piece@, word@);
    }
    found || same_chars(piece, word)
}

proof fn lemma_contains_push<T>(s: Seq<T>, x: T, y: T)
    ensures
        s.push(x).contains(y) == (s.contains(y) || x == y),
{
    if s.contains(y) {
        let i = choose|i: int| 0 <= i < s.len() && s[i] == y;
        assert(s.push(x)[i] == y);
    }
    if x == y {
        assert(s.push(x)[s.len() as int] == y);
    }
    if s.push(x).contains(y) {
        let i = choose|i: int| 0 <= i < s.len() + 1 && s.push(x)[i] == y;
        if i < s.len() {
            assert(s[i] == y);
        }
    }
}

/// Best-effort line number for a duplicate: its last occurrence in the text.
fn line_of(all: &[&[char]], word: &str) -> (r: usize)
    ensures
        r == last_mention(runs(all@), word@, all@.len() as int),
{
    let chars = chars_of(word);
    let mut n: usize = all.len();
    while n > 0
        invariant
            n <= all@.len(),
            chars@ == word@,
            last_mention(runs(all@), word@, all@.len() as int) == last_mention(
                runs(all@),
                word@,
                n as int,
            ),
        decreases n,
    {
        let line = all[n - 1];
        assert(runs(all@)[n - 1] == line@);
        let start = trimmed_start(line);
        if !(start.len() > 0 && start[0] == '#') && has_word(line, &chars) {
            return n;
        }
        n = n - 1;
    }
    0
}

/// The first word from the `j`th on that was seen before.
pub open spec fn first_repeat(list: Seq<Seq<char>>, j: int, seen: Set<Seq<char>>) -> Option<
    Seq<char>,
>
    decreases list.len() - j,
{
    if j >= list.len() {
        None
    } else if seen.contains(list[j]) {
        Some(list[j])
    } else {
        first_repeat(list, j + 1, seen.insert(list[j]))
    }
}

/// What is wrong with the capabilities from the `i`th on, given the symbols and
/// strings of those before it.
pub open spec fn flaw_from(
    all: Seq<Seq<char>>,
    caps: Seq<CapModel>,
    i: int,
    symbols: Set<Seq<char>>,
    strings: Set<Seq<char>>,
) -> Option<DbErrorModel>
    decreases caps.len() - i,
{
    if i >= caps.len() {
        None
    } else {
        let cap = caps[i];
        if cap.title.len() == 0 {
            Some(DbErrorModel::MissingField { capability: cap.id, field: "title" })
        } else if cap.rationale.len() == 0 {
            Some(DbErrorModel::MissingField { capability: cap.id, field: "rationale" })
        } else if cap.symbols.len() == 0 && cap.strings.len() == 0 {
            Some(DbErrorModel::MissingField { capability: cap.id, field: "symbols or strings" })
        } else {
            match first_repeat(cap.symbols, 0, symbols) {
                Some(word) => Some(
                    DbErrorModel::Duplicate {
                        line: last_mention(all, word, all.len() as int),
                        name: word,
                    },
                ),
                None => match first_repeat(cap.strings, 0, strings) {
                    Some(word) => Some(
                        DbErrorModel::Duplicate {
                            line: last_mention(all, word, all.len() as int),
                            name: word,
                        },
                    ),
                    None => flaw_from(
                        all,
                        caps,
                        i + 1,
                        symbols.union(cap.symbols.to_set()),
                        strings.union(cap.strings.to_set()),
                    ),
                },
            }
        }
    }
}

/// The capabilities that a text describes, or what is wrong with it.
pub open spec fn db_model(text: Seq<char>) -> Result<Seq<CapModel>, DbErrorModel> {
    let all = lines(text);
    match lines_from(all, 0, DbState { caps: Seq::empty(), key: None }) {
        Err(e) => Err(e),
        Ok(st) => match flaw_from(all, st.caps, 0, Set::empty(), Set::empty()) {
            Some(e) => Err(e),
            None => Ok(st.caps),
        },
    }
}

/// The text of the first `n` lines, each with its line feed.
pub open spec fn lines_text(all: Seq<Seq<char>>, n: int) -> Seq<char>
    decreases n,
{
    if n <= 0 {
        Seq::empty()
    } else {
        lines_text(all, n - 1) + all[n - 1].push('\n')
    }
}

/// The words that a list adds, all with one owner.
spec fn owned_by(list: Seq<Seq<char>>, owner: usize) -> Map<Seq<char>, usize> {
    Map::new(|w: Seq<char>| list.contains(w), |w: Seq<char>| owner)
}

/// Adds the words of a list to an index, up to the first that is there already;
/// gives its position.
fn index_words(index: &mut TextMap<usize>, list: &Vec<String>, owner: usize) -> (r: Option<usize>)
    requires
        old(index).wf(),
    ensures
        final(index).wf(),
        match r {
            Some(j) => j < list@.len() && first_repeat(texts(list@), 0, old(index)@.dom()) == Some(
                list@[j as int]@,
            ),
            None => first_repeat(texts(list@), 0, old(index)@.dom()) is None && final(index)@
                == old(index)@.union_prefer_right(owned_by(texts(list@), owner)),
        },
{
    let ghost all = texts(list@);
    let mut j: usize = 0;
    assert(index@ =~= old(index)@.union_prefer_right(owned_by(all.take(0), owner)));
    while j < list.len()
        invariant
            j <= list@.len(),
            all == texts(list@),
            index.wf(),
            index@ == old(index)@.union_prefer_right(owned_by(all.take(j as int), owner)),
            first_repeat(all, 0, old(index)@.dom()) == first_repeat(all, j as int, index@.dom()),
        decreases list@.len() - j,
    {
        let ghost before = index@;
        let word = list[j].clone();
        let ghost w = word@;
        assert(all[j as int] == w);
        if index.has(word.as_str()) {
            return Some(j);
        }
        index.insert(word, owner);
        proof {
            assert(all.take(j + 1) =~= all.take(j as int).push(w));
            assert forall|x: Seq<char>| all.take(j + 1).contains(x) == (all.take(
                j as int,
            ).contains(x) || x == w) by {
                lemma_contains_push(all.take(j as int), w, x);
            }
            assert(index@ =~= old(index)@.union_prefer_right(owned_by(all.take(j + 1), owner)));
            assert(index@.dom() =~= before.dom().insert(w));
        }
        j = j + 1;
    }
    assert(all.take(all.len() as int) =~= all);
    None
}

/// The first capability from the `i`th on that meets a condition.
pub open spec fn first_cap(caps: Seq<CapModel>, p: spec_fn(CapModel) -> bool, i: int) -> Option<int>
    decreases caps.len() - i,
{
    if i >= caps.len() {
        None
    } else if p(caps[i]) {
        Some(i)
    } else {
        first_cap(caps, p, i + 1)
    }
}

/// The capability with an id.
pub open spec fn cap_with_id(caps: Seq<CapModel>, id: Seq<char>) -> Option<int> {
    first_cap(caps, |c: CapModel| c.id == id, 0)
}

/// The capability that lists a symbol.
pub open spec fn cap_of_symbol(caps: Seq<CapModel>, name: Seq<char>) -> Option<int> {
    first_cap(caps, |c: CapModel| c.symbols.contains(name), 0)
}

/// The capability that lists a string.
pub open spec fn cap_of_string(caps: Seq<CapModel>, s: Seq<char>) -> Option<int> {
    first_cap(caps, |c: CapModel| c.strings.contains(s), 0)
}

/// An index has each word of some lists under the position of its list, and no
/// other words.
spec fn indexed(index: Map<Seq<char>, usize>, lists: Seq<Seq<Seq<char>>>) -> bool {
    &&& forall|w: Seq<char>| #[trigger]
        index.contains_key(w) ==> index[w] < lists.len() && lists[index[w] as int].contains(w)
    &&& forall|i: int, w: Seq<char>|
        0 <= i < lists.len() && #[trigger] lists[i].contains(w) ==> index.contains_key(w)
            && index[w] == i
}

/// The symbols of each capability.
pub open spec fn symbol_lists(caps: Seq<CapModel>) -> Seq<Seq<Seq<char>>> {
    caps.map_values(|c: CapModel| c.symbols)
}

/// The strings of each capability.
pub open spec fn string_lists(caps: Seq<CapModel>) -> Seq<Seq<Seq<char>>> {
    caps.map_values(|c: CapModel| c.strings)
}

/// The first capability that meets a condition is found.
pub proof fn lemma_first_cap(caps: Seq<CapModel>, p: spec_fn(CapModel) -> bool, i: int, k: int)
    requires
        0 <= i <= k < caps.len(),
        p(caps[k]),
        forall|j: int| i <= j < k ==> !p(#[trigger] caps[j]),
    ensures
        first_cap(caps, p, i) == Some(k),
    decreases k - i,
{
    if i < k {
        assert(!p(caps[i]));
        lemma_first_cap(caps, p, i + 1, k);
    }
}

pub proof fn lemma_no_cap(caps: Seq<CapModel>, p: spec_fn(CapModel) -> bool, i: int)
    requires
        0 <= i,
        forall|j: int| i <= j < caps.len() ==> !p(#[trigger] caps[j]),
    ensures
        first_cap(caps, p, i) is None,
    decreases caps.len() - i,
{
    if i < caps.len() {
        assert(!p(caps[i]));
        lemma_no_cap(caps, p, i + 1);
    }
}

/// A list added to the lists of an index.
proof fn lemma_indexed_push(
    index: Map<Seq<char>, usize>,
    lists: Seq<Seq<Seq<char>>>,
    list: Seq<Seq<char>>,
    owner: usize,
)
    requires
        indexed(index, lists),
        owner == lists.len(),
        first_repeat(list, 0, index.dom()) is None,
    ensures
        indexed(index.union_prefer_right(owned_by(list, owner)), lists.push(list)),
{
    let next = index.union_prefer_right(owned_by(list, owner));
    let more = lists.push(list);
    lemma_no_repeat(list, 0, index.dom());
    assert forall|w: Seq<char>| #[trigger] next.contains_key(w) implies next[w] < more.len()
        && more[next[w] as int].contains(w) by {
        if !list.contains(w) {
            assert(index.contains_key(w));
        }
    }
    assert forall|i: int, w: Seq<char>|
        0 <= i < more.len() && #[trigger] more[i].contains(w) implies next.contains_key(w)
        && next[w] == i by {
        if i < lists.len() {
            assert(lists[i].contains(w));
            assert(index.dom().contains(w));
            assert(!list.contains(w));
        }
    }
}

/// A list without repeats has no word that was seen before, and none twice.
pub proof fn lemma_no_repeat(list: Seq<Seq<char>>, j: int, seen: Set<Seq<char>>)
    requires
        0 <= j,
        first_repeat(list, j, seen) is None,
    ensures
        forall|k: int| j <= k < list.len() ==> !seen.contains(#[trigger] list[k]),
        j == 0 ==> (forall|w: Seq<char>| seen.contains(w) ==> !list.contains(w)),
        forall|k: int, m: int|
            j <= k < m < list.len() ==> #[trigger] list[k] != #[trigger] list[m],
    decreases list.len() - j,
{
    if j < list.len() {
        lemma_no_repeat(list, j + 1, seen.insert(list[j]));
        assert forall|k: int, m: int| j <= k < m < list.len() implies #[trigger] list[k]
            != #[trigger] list[m] by {
            if k == j {
                assert(!seen.insert(list[j]).contains(list[m]));
            }
        }
    }
}

/// A database of capabilities, with no symbol and no string listed twice.
#[derive(Debug)]
pub struct CapDb {
    capabilities: Vec<Capability>,
    by_symbol: TextMap<usize>,
    by_string: TextMap<usize>,
}

impl View for CapDb {
    type V = Seq<CapModel>;

    closed spec fn view(&self) -> Seq<CapModel> {
        views(self.capabilities@)
    }
}

impl Clone for CapDb {
    fn clone(&self) -> (r: CapDb)
        ensures
            r@ == self@,
    {
        proof {
            use_type_invariant(self);
        }
        let mut capabilities: Vec<Capability> = Vec::new();
        let mut i: usize = 0;
        while i < self.capabilities.len()
            invariant
                i <= self.capabilities@.len(),
                capabilities@.len() == i,
                forall|j: int| 0 <= j < i ==> (#[trigger] capabilities@[j])@ == self@[j],
            decreases self.capabilities@.len() - i,
        {
            capabilities.push(self.capabilities[i].clone());
            i = i + 1;
        }
        assert(views(capabilities@) =~= self@);
        CapDb {
            capabilities,
            by_symbol: self.by_symbol.duplicate(),
            by_string: self.by_string.duplicate(),
        }
    }
}

/// A database that may have failed to be read.
pub open spec fn db_result(r: Result<CapDb, DbError>) -> Result<Seq<CapModel>, DbErrorModel> {
    match r {
        Ok(db) => Ok(db@),
        Err(e) => Err(e@),
    }
}

impl CapDb {
    #[verifier::type_invariant]
    closed spec fn inv(self) -> bool {
        &&& self.by_symbol.wf()
        &&& self.by_string.wf()
        &&& indexed(self.by_symbol@, symbol_lists(views(self.capabilities@)))
        &&& indexed(self.by_string@, string_lists(views(self.capabilities@)))
    }

    /// The database that ships with the library.
    pub fn builtin() -> (r: CapDb)
        ensures
            db_model(builtin_text()) == Ok::<Seq<CapModel>, DbErrorModel>(r@),
            r@.map_values(|c: CapModel| c.id) == builtin_ids(),
    {
        proof {
            law_builtin_database_is_sound();
        }
        let text = write_builtin();
        CapDb::parse(text.as_str()).unwrap()
    }

    pub fn parse(text: &str) -> (r: Result<CapDb, DbError>)
        ensures
            db_result(r) == db_model(text@),
    {
        let chars = chars_of(text);
        let all = split_lines(&chars);
        let ghost model = runs(all@);
        let ghost start = DbState { caps: Seq::empty(), key: None };
        let mut capabilities: Vec<Capability> = Vec::new();
        let mut key: Option<Key> = None;
        let mut i: usize = 0;
        assert(views(capabilities@) =~= start.caps);
        while i < all.len()
            invariant
                i <= all@.len(),
                model == runs(all@),
                model == lines(text@),
                start == (DbState { caps: Seq::empty(), key: None }),
                lines_from(model, 0, start) == lines_from(
                    model,
                    i as int,
                    DbState { caps: views(capabilities@), key },
                ),
            decreases all@.len() - i,
        {
            assert(model[i as int] == all@[i as int]@);
            key = read_line(&mut capabilities, key, all[i], i + 1)?;
            i = i + 1;
        }
        let ghost caps = views(capabilities@);
        let mut by_symbol : TextMap<usize> = TextMap::new();
        let mut by_string : TextMap<usize> = TextMap::new();
        let mut k: usize = 0;
        assert(by_symbol@.dom() =~= Set::empty());
        assert(by_string@.dom() =~= Set::empty());
        assert(symbol_lists(caps).take(0) =~= Seq::empty());
        assert(string_lists(caps).take(0) =~= Seq::empty());
        while k < capabilities.len()
            invariant
                k <= capabilities@.len(),
                caps == views(capabilities@),
                model == runs(all@),
                model == lines(text@),
                by_symbol.wf(),
                by_string.wf(),
                indexed(by_symbol@, symbol_lists(caps).take(k as int)),
                indexed(by_string@, string_lists(caps).take(k as int)),
                start == (DbState { caps: Seq::empty(), key: None }),
                lines_from(model, 0, start) matches Ok(st) && st.caps == caps,
                flaw_from(model, caps, 0, Set::empty(), Set::empty()) == flaw_from(
                    model,
                    caps,
                    k as int,
                    by_symbol@.dom(),
                    by_string@.dom(),
                ),
            decreases capabilities@.len() - k,
        {
            let cap = &capabilities[k];
            assert(caps[k as int] == cap@);
            if cap.title.as_str().unicode_len() == 0 {
                return Err(missing(cap, "title"));
            }
            if cap.rationale.as_str().unicode_len() == 0 {
                return Err(missing(cap, "rationale"));
            }
            if cap.symbols.len() == 0 && cap.strings.len() == 0 {
                return Err(missing(cap, "symbols or strings"));
            }
            let ghost symbols_before = by_symbol@;
            let ghost strings_before = by_string@;
            if let Some(j) = index_words(&mut by_symbol, &cap.symbols, k) {
                let name = cap.symbols[j].clone();
                return Err(DbError::Duplicate { line: line_of(&all, name.as_str()), name });
            }
            if let Some(j) = index_words(&mut by_string, &cap.strings, k) {
                let name = cap.strings[j].clone();
                return Err(DbError::Duplicate { line: line_of(&all, name.as_str()), name });
            }
            proof {
                lemma_indexed_push(
                    symbols_before,
                    symbol_lists(caps).take(k as int),
                    texts(cap.symbols@),
                    k,
                );
                lemma_indexed_push(
                    strings_before,
                    string_lists(caps).take(k as int),
                    texts(cap.strings@),
                    k,
                );
                assert(symbol_lists(caps).take(k + 1) =~= symbol_lists(caps).take(k as int).push(
                    texts(cap.symbols@),
                ));
                assert(string_lists(caps).take(k + 1) =~= string_lists(caps).take(k as int).push(
                    texts(cap.strings@),
                ));
                assert(by_symbol@.dom() =~= symbols_before.dom().union(
                    texts(cap.symbols@).to_set(),
                ));
                assert(by_string@.dom() =~= strings_before.dom().union(
                    texts(cap.strings@).to_set(),
                ));
            }
            k = k + 1;
        }
        assert(symbol_lists(caps).take(k as int) =~= symbol_lists(caps));
        assert(string_lists(caps).take(k as int) =~= string_lists(caps));
        Ok(CapDb { capabilities, by_symbol, by_string })
    }

    pub fn capabilities(&self) -> (r: &[Capability])
        ensures
            views(r@) == self@,
    {
        self.capabilities.as_slice()
    }

    pub fn get(&self, id: &str) -> (r: Option<&Capability>)
        ensures
            match r {
                Some(c) => cap_with_id(self@, id@) matches Some(i) && c@ == self@[i],
                None => cap_with_id(self@, id@) is None,
            },
    {
        let i: usize = self.rank_of(id);
        if i < self.capabilities.len() {
            Some(&self.capabilities[i])
        } else {
            None
        }
    }

    /// The position of the capability with an id, or the number of capabilities.
    fn rank_of(&self, id: &str) -> (r: usize)
        ensures
            match cap_with_id(self@, id@) {
                Some(i) => r == i && i < self@.len(),
                None => r == self@.len(),
            },
            self@.len() == self.capabilities@.len(),
    {
        let ghost p = |c: CapModel| c.id == id@;
        let mut i: usize = 0;
        while i < self.capabilities.len()
            invariant
                i <= self.capabilities@.len(),
                p == (|c: CapModel| c.id == id@),
                first_cap(self@, p, 0) == first_cap(self@, p, i as int),
            decreases self.capabilities@.len() - i,
        {
            assert(self@[i as int] == self.capabilities@[i as int]@);
            if same_text(self.capabilities[i].id.as_str(), id) {
                return i;
            }
            i = i + 1;
        }
        i
    }

    /// Position in the database, used to order reports the way the file does.
    pub fn rank(&self, id: &str) -> (r: usize)
        ensures
            r == (match cap_with_id(self@, id@) {
                Some(i) => i,
                None => usize::MAX as int,
            }),
    {
        let i: usize = self.rank_of(id);
        if i < self.capabilities.len() {
            i
        } else {
            usize::MAX
        }
    }

    pub fn for_symbol(&self, name: &str) -> (r: Option<&Capability>)
        ensures
            match r {
                Some(c) => cap_of_symbol(self@, name@) matches Some(i) && c@ == self@[i],
                None => cap_of_symbol(self@, name@) is None,
            },
    {
        proof {
            use_type_invariant(self);
        }
        let ghost p = |c: CapModel| c.symbols.contains(name@);
        let ghost lists = symbol_lists(self@);
        match self.by_symbol.get(name) {
            Some(at) => {
                let i: usize = *at;
                proof {
                    assert(lists[i as int].contains(name@));
                    assert forall|j: int| 0 <= j < i implies !p(#[trigger] self@[j]) by {
                        assert(!lists[j].contains(name@));
                    }
                    lemma_first_cap(self@, p, 0, i as int);
                }
                Some(&self.capabilities[i])
            },
            None => {
                proof {
                    assert forall|j: int| 0 <= j < self@.len() implies !p(#[trigger] self@[j]) by {
                        assert(!lists[j].contains(name@));
                    }
                    lemma_no_cap(self@, p, 0);
                }
                None
            },
        }
    }

    pub fn for_string(&self, s: &str) -> (r: Option<&Capability>)
        ensures
            match r {
                Some(c) => cap_of_string(self@, s@) matches Some(i) && c@ == self@[i],
                None => cap_of_string(self@, s@) is None,
            },
    {
        proof {
            use_type_invariant(self);
        }
        let ghost p = |c: CapModel| c.strings.contains(s@);
        let ghost lists = string_lists(self@);
        match self.by_string.get(s) {
            Some(at) => {
                let i: usize = *at;
                proof {
                    assert(lists[i as int].contains(s@));
                    assert forall|j: int| 0 <= j < i implies !p(#[trigger] self@[j]) by {
                        assert(!lists[j].contains(s@));
                    }
                    lemma_first_cap(self@, p, 0, i as int);
                }
                Some(&self.capabilities[i])
            },
            None => {
                proof {
                    assert forall|j: int| 0 <= j < self@.len() implies !p(#[trigger] self@[j]) by {
                        assert(!lists[j].contains(s@));
                    }
                    lemma_no_cap(self@, p, 0);
                }
                None
            },
        }
    }
}

fn missing(cap: &Capability, field: &'static str) -> (r: DbError)
    ensures
        r@ == (DbErrorModel::MissingField { capability: cap@.id, field }),
{
    DbError::MissingField { capability: cap.id.clone(), field }
}

} // verus!
