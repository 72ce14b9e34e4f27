//! Text as sequences of characters: conversions between strings and character
//! slices, whitespace, splitting, joining and number formatting.

use vstd::prelude::*;
use vstd::slice::slice_subrange;
use vstd::utf8::*;

verus! {

/// `String::push` of the standard library: appends one character.
pub assume_specification[ String::push ](s: &mut String, c: char)
    ensures
        final(s)@ == old(s)@.push(c),
;

/// What `String::from_utf8_lossy` makes of bytes that are not UTF-8.
pub uninterp spec fn lossy_utf8(bytes: Seq<u8>) -> Seq<char>;

/// `String::from_utf8_lossy` of the standard library. Valid UTF-8 comes back as
/// the text it encodes. For other bytes the result depends on the bytes alone;
/// how invalid sequences are replaced is left to the name `lossy_utf8`.
#[verifier::external_body]
pub(crate) fn lossy_string(bytes: &[u8]) -> (r: String)
    ensures
        valid_utf8(bytes@) ==> r@ == decode_utf8(bytes@),
        !valid_utf8(bytes@) ==> r@ == lossy_utf8(bytes@),
{
    String::from_utf8_lossy(bytes).into_owned()
}

/// The text that bytes stand for.
pub open spec fn decoded(bytes: Seq<u8>) -> Seq<char> {
    if valid_utf8(bytes) {
        decode_utf8(bytes)
    } else {
        lossy_utf8(bytes)
    }
}

/// The characters of a string.
pub fn chars_of(s: &str) -> (r: Vec<char>)
    ensures
        r@ == s@,
{
    let mut v: Vec<char> = Vec::new();
    for c in it: s.chars()
        invariant
            v@ == it.seq().take(it.index() as int),
            it.seq() == s@,
    {
        v.push(c);
    }
    v
}

/// Appends characters to a string.
pub fn push_chars(out: &mut String, s: &[char])
    ensures
        final(out)@ == old(out)@ + s@,
{
    let mut i: usize = 0;
    assert(s@.take(0) =~= Seq::empty());
    assert(out@ =~= old(out)@ + s@.take(0));
    while i < s.len()
        invariant
            i <= s.len(),
            out@ == old(out)@ + s@.take(i as int),
        decreases s.len() - i,
    {
        out.push(s[i]);
        i += 1;
        assert(s@.take(i as int) =~= s@.take(i - 1).push(s@[i - 1]));
        assert(out@ =~= old(out)@ + s@.take(i as int));
    }
    assert(s@.take(i as int) =~= s@);
}

/// A string with the given characters.
pub fn string_of(s: &[char]) -> (r: String)
    ensures
        r@ == s@,
{
    let mut out = String::new();
    push_chars(&mut out, s);
    assert(out@ =~= s@);
    out
}

/// An owned copy of a string slice.
pub fn owned(s: &str) -> (r: String)
    ensures
        r@ == s@,
{
    s.to_owned()
}

/// Bytes read as ASCII characters.
pub open spec fn ascii(bytes: Seq<u8>) -> Seq<char> {
    bytes.map_values(|b: u8| b as char)
}

/// A string with the given ASCII bytes as characters.
pub fn ascii_string(bytes: &[u8]) -> (r: String)
    ensures
        r@ == ascii(bytes@),
{
    let mut out = String::new();
    let mut i: usize = 0;
    assert(out@ =~= ascii(bytes@.take(0)));
    while i < bytes.len()
        invariant
            i <= bytes.len(),
            out@ == ascii(bytes@.take(i as int)),
        decreases bytes.len() - i,
    {
        out.push(bytes[i] as char);
        i += 1;
        assert(ascii(bytes@.take(i as int)) =~= ascii(bytes@.take(i - 1)).push(
            bytes@[i - 1] as char,
        ));
    }
    assert(bytes@.take(i as int) =~= bytes@);
    out
}

/// Whether two strings hold the same text.
pub fn same_text(a: &str, b: &str) -> (r: bool)
    ensures
        r == (a@ == b@),
{
    let x = a.as_bytes();
    let y = b.as_bytes();
    proof {
        encode_utf8_decode_utf8(a@);
        encode_utf8_decode_utf8(b@);
    }
    if x.len() != y.len() {
        return false;
    }
    let mut i: usize = 0;
    while i < x.len()
        invariant
            i <= x.len(),
            x.len() == y.len(),
            x@ == encode_utf8(a@),
            y@ == encode_utf8(b@),
            forall|j: int| 0 <= j < i ==> x@[j] == y@[j],
        decreases x.len() - i,
    {
        if x[i] != y[i] {
            return false;
        }
        i += 1;
    }
    assert(x@ =~= y@);
    true
}

/// Whether a run of characters spells the given text.
pub fn is_text(s: &[char], text: &str) -> (r: bool)
    ensures
        r == (s@ == text@),
{
    let t = chars_of(text);
    same_chars(s, t.as_slice())
}

/// Whether two runs of characters are equal.
pub fn same_chars(a: &[char], b: &[char]) -> (r: bool)
    ensures
        r == (a@ == b@),
{
    if a.len() != b.len() {
        return false;
    }
    let mut i: usize = 0;
    while i < a.len()
        invariant
            i <= a.len(),
            a.len() == b.len(),
            forall|j: int| 0 <= j < i ==> a@[j] == b@[j],
        decreases a.len() - i,
    {
        if a[i] != b[i] {
            return false;
        }
        i += 1;
    }
    assert(a@ =~= b@);
    true
}

/// `p` occurs in `s` at position `i`.
pub open spec fn occurs_at(s: Seq<char>, p: Seq<char>, i: int) -> bool {
    0 <= i && i + p.len() <= s.len() && s.subrange(i, i + p.len()) == p
}

pub open spec fn has_prefix(s: Seq<char>, p: Seq<char>) -> bool {
    occurs_at(s, p, 0)
}

pub open spec fn has_suffix(s: Seq<char>, p: Seq<char>) -> bool {
    occurs_at(s, p, s.len() - p.len())
}

pub open spec fn has_infix(s: Seq<char>, p: Seq<char>) -> bool {
    exists|i: int| occurs_at(s, p, i)
}

/// Whether `p` occurs in `s` at position `i`.
pub fn matches_at(s: &[char], p: &[char], i: usize) -> (r: bool)
    ensures
        r == occurs_at(s@, p@, i as int),
{
    if i > s.len() || s.len() - i < p.len() {
        return false;
    }
    same_chars(slice_subrange(s, i, i + p.len()), p)
}

pub fn starts_with(s: &[char], p: &str) -> (r: bool)
    ensures
        r == has_prefix(s@, p@),
{
    let t = chars_of(p);
    matches_at(s, t.as_slice(), 0)
}

pub fn ends_with(s: &[char], p: &str) -> (r: bool)
    ensures
        r == has_suffix(s@, p@),
{
    let t = chars_of(p);
    if t.len() > s.len() {
        return false;
    }
    matches_at(s, t.as_slice(), s.len() - t.len())
}

pub fn contains_text(s: &[char], p: &str) -> (r: bool)
    ensures
        r == has_infix(s@, p@),
{
    let t = chars_of(p);
    let mut i: usize = 0;
    while i < s.len()
        invariant
            i <= s.len(),
            t@ == p@,
            forall|j: int| 0 <= j < i ==> !occurs_at(s@, p@, j),
        decreases s.len() - i,
    {
        if matches_at(s, t.as_slice(), i) {
            return true;
        }
        i += 1;
    }
    let last = matches_at(s, t.as_slice(), i);
    proof {
        if has_infix(s@, p@) {
            let j = choose|j: int| occurs_at(s@, p@, j);
            assert(j == s.len());
        }
    }
    last
}

/// Position of the first occurrence of a character, or the length.
pub open spec fn position(s: Seq<char>, c: char) -> int
    decreases s.len(),
{
    if s.len() == 0 || s[0] == c {
        0
    } else {
        1 + position(s.drop_first(), c)
    }
}

/// The first occurrence is a real one, and nothing before it matches.
pub proof fn lemma_position(s: Seq<char>, c: char)
    ensures
        0 <= position(s, c) <= s.len(),
        position(s, c) < s.len() ==> s[position(s, c)] == c,
        forall|j: int| 0 <= j < position(s, c) ==> s[j] != c,
    decreases s.len(),
{
    if s.len() > 0 && s[0] != c {
        lemma_position(s.drop_first(), c);
        assert forall|j: int| 0 <= j < position(s, c) implies s[j] != c by {
            if j > 0 {
                assert(s[j] == s.drop_first()[j - 1]);
            }
        }
    }
}

/// A place that is an occurrence with nothing before it is the position.
pub proof fn lemma_position_is(s: Seq<char>, c: char, i: int)
    requires
        0 <= i <= s.len(),
        i < s.len() ==> s[i] == c,
        forall|j: int| 0 <= j < i ==> s[j] != c,
    ensures
        position(s, c) == i,
{
    lemma_position(s, c);
    let p = position(s, c);
    if p < i {
        assert(s[p] != c);
    } else if i < p {
        assert(s[i] != c);
    }
}

pub fn find_char(s: &[char], c: char) -> (r: usize)
    ensures
        r == position(s@, c),
{
    let mut i: usize = 0;
    while i < s.len() && s[i] != c
        invariant
            i <= s.len(),
            forall|j: int| 0 <= j < i ==> s@[j] != c,
        decreases s.len() - i,
    {
        i += 1;
    }
    proof {
        lemma_position_is(s@, c, i as int);
    }
    i
}

/// The characters with the Unicode `White_Space` property.
pub open spec fn is_space(c: char) -> bool {
    ||| '\t' <= c <= '\r'
    ||| c == ' '
    ||| c == '\u{85}'
    ||| c == '\u{a0}'
    ||| c == '\u{1680}'
    ||| '\u{2000}' <= c <= '\u{200a}'
    ||| c == '\u{2028}'
    ||| c == '\u{2029}'
    ||| c == '\u{202f}'
    ||| c == '\u{205f}'
    ||| c == '\u{3000}'
}

pub fn whitespace(c: char) -> (r: bool)
    ensures
        r == is_space(c),
{
    ('\t' <= c && c <= '\r') || c == ' ' || c == '\u{85}' || c == '\u{a0}' || c == '\u{1680}' || (
    '\u{2000}' <= c && c <= '\u{200a}') || c == '\u{2028}' || c == '\u{2029}' || c == '\u{202f}'
        || c == '\u{205f}' || c == '\u{3000}'
}

pub open spec fn is_alphanumeric(c: char) -> bool {
    'a' <= c <= 'z' || 'A' <= c <= 'Z' || '0' <= c <= '9'
}

pub fn alphanumeric(c: char) -> (r: bool)
    ensures
        r == is_alphanumeric(c),
{
    ('a' <= c && c <= 'z') || ('A' <= c && c <= 'Z') || ('0' <= c && c <= '9')
}

pub open spec fn trim_start(s: Seq<char>) -> Seq<char>
    decreases s.len(),
{
    if s.len() > 0 && is_space(s[0]) {
        trim_start(s.drop_first())
    } else {
        s
    }
}

pub open spec fn trim_end(s: Seq<char>) -> Seq<char>
    decreases s.len(),
{
    if s.len() > 0 && is_space(s.last()) {
        trim_end(s.drop_last())
    } else {
        s
    }
}

/// Text without leading and trailing whitespace.
pub open spec fn trim(s: Seq<char>) -> Seq<char> {
    trim_end(trim_start(s))
}

pub fn trimmed_start<'a>(s: &'a [char]) -> (r: &'a [char])
    ensures
        r@ == trim_start(s@),
{
    let mut i: usize = 0;
    assert(s@.skip(0) =~= s@);
    while i < s.len() && whitespace(s[i])
        invariant
            i <= s.len(),
            trim_start(s@) == trim_start(s@.skip(i as int)),
        decreases s.len() - i,
    {
        assert(s@.skip(i as int).drop_first() =~= s@.skip(i + 1));
        i += 1;
    }
    slice_subrange(s, i, s.len())
}

pub fn trimmed_end<'a>(s: &'a [char]) -> (r: &'a [char])
    ensures
        r@ == trim_end(s@),
{
    let mut n: usize = s.len();
    assert(s@.take(n as int) =~= s@);
    while n > 0 && whitespace(s[n - 1])
        invariant
            n <= s.len(),
            trim_end(s@) == trim_end(s@.take(n as int)),
        decreases n,
    {
        assert(s@.take(n as int).drop_last() =~= s@.take(n - 1));
        n -= 1;
    }
    slice_subrange(s, 0, n)
}

pub fn trimmed<'a>(s: &'a [char]) -> (r: &'a [char])
    ensures
        r@ == trim(s@),
{
    trimmed_end(trimmed_start(s))
}

/// The runs between separator characters, in order; one more than there are
/// separators.
pub open spec fn pieces(s: Seq<char>, cut: spec_fn(char) -> bool) -> Seq<Seq<char>>
    decreases s.len(),
{
    if s.len() == 0 {
        seq![Seq::<char>::empty()]
    } else {
        let before = pieces(s.drop_last(), cut);
        if cut(s.last()) {
            before.push(Seq::<char>::empty())
        } else {
            before.drop_last().push(before.last().push(s.last()))
        }
    }
}

/// The separator test for one character.
pub open spec fn at_char(c: char) -> spec_fn(char) -> bool {
    |x: char| x == c
}

/// The separator test for whitespace.
pub open spec fn at_space() -> spec_fn(char) -> bool {
    |x: char| is_space(x)
}

/// The views of a list of character runs.
pub open spec fn runs(v: Seq<&[char]>) -> Seq<Seq<char>> {
    v.map_values(|p: &[char]| p@)
}

/// One more character either ends the last piece or extends it.
pub proof fn lemma_pieces_step(s: Seq<char>, cut: spec_fn(char) -> bool, start: int, i: int)
    requires
        0 <= start <= i < s.len(),
        pieces(s.take(i), cut).len() > 0,
        pieces(s.take(i), cut).last() == s.subrange(start, i),
    ensures
        cut(s[i]) ==> pieces(s.take(i + 1), cut) == pieces(s.take(i), cut).push(
            s.subrange(i + 1, i + 1),
        ),
        !cut(s[i]) ==> pieces(s.take(i + 1), cut) == pieces(s.take(i), cut).drop_last().push(
            s.subrange(start, i + 1),
        ),
{
    assert(s.take(i + 1).drop_last() =~= s.take(i));
    assert(s.take(i + 1).last() == s[i]);
    assert(s.subrange(i + 1, i + 1) =~= Seq::empty());
    assert(s.subrange(start, i + 1) =~= s.subrange(start, i).push(s[i]));
}

pub fn split_char<'a>(s: &'a [char], c: char) -> (r: Vec<&'a [char]>)
    ensures
        runs(r@) == pieces(s@, at_char(c)),
{
    let mut out: Vec<&'a [char]> = Vec::new();
    let mut start: usize = 0;
    let mut i: usize = 0;
    let ghost cut = at_char(c);
    assert(s@.take(0) =~= Seq::empty());
    assert(pieces(s@.take(0), cut) =~= runs(out@).push(s@.subrange(0, 0)));
    while i < s.len()
        invariant
            start <= i <= s.len(),
            cut == at_char(c),
            pieces(s@.take(i as int), cut) == runs(out@).push(s@.subrange(start as int, i as int)),
        decreases s.len() - i,
    {
        proof {
            lemma_pieces_step(s@, cut, start as int, i as int);
        }
        if s[i] == c {
            let ghost before = runs(out@);
            out.push(slice_subrange(s, start, i));
            assert(runs(out@) =~= before.push(s@.subrange(start as int, i as int)));
            start = i + 1;
        } else {
            assert(pieces(s@.take(i as int), cut).drop_last() =~= runs(out@));
        }
        i += 1;
    }
    assert(s@.take(i as int) =~= s@);
    let ghost before = runs(out@);
    out.push(slice_subrange(s, start, s.len()));
    assert(runs(out@) =~= before.push(s@.subrange(start as int, i as int)));
    out
}

/// The non-empty runs of characters that are not whitespace.
pub open spec fn words(s: Seq<char>) -> Seq<Seq<char>> {
    pieces(s, at_space()).filter(|p: Seq<char>| p.len() > 0)
}

pub fn split_words<'a>(s: &'a [char]) -> (r: Vec<&'a [char]>)
    ensures
        runs(r@) == words(s@),
{
    broadcast use vstd::seq_lib::group_filter_ensures;

    let mut out: Vec<&'a [char]> = Vec::new();
    let mut start: usize = 0;
    let mut i: usize = 0;
    let ghost cut = at_space();
    let ghost full = |p: Seq<char>| p.len() > 0;
    let ghost mut done: Seq<Seq<char>> = Seq::empty();
    assert(s@.take(0) =~= Seq::empty());
    assert(pieces(s@.take(0), cut) =~= done.push(s@.subrange(0, 0)));
    assert(runs(out@) =~= done.filter(full)) by {
        reveal(Seq::filter);
    }
    while i < s.len()
        invariant
            start <= i <= s.len(),
            cut == at_space(),
            full == (|p: Seq<char>| p.len() > 0),
            pieces(s@.take(i as int), cut) == done.push(s@.subrange(start as int, i as int)),
            runs(out@) == done.filter(full),
        decreases s.len() - i,
    {
        proof {
            lemma_pieces_step(s@, cut, start as int, i as int);
        }
        if whitespace(s[i]) {
            let ghost piece = s@.subrange(start as int, i as int);
            proof {
                done.lemma_filter_push(piece, full);
            }
            if start < i {
                let ghost before = runs(out@);
                out.push(slice_subrange(s, start, i));
                assert(runs(out@) =~= before.push(piece));
            }
            proof {
                done = done.push(piece);
            }
            start = i + 1;
        } else {
            assert(pieces(s@.take(i as int), cut).drop_last() =~= done);
        }
        i += 1;
    }
    assert(s@.take(i as int) =~= s@);
    let ghost piece = s@.subrange(start as int, i as int);
    proof {
        done.lemma_filter_push(piece, full);
    }
    if start < i {
        let ghost before = runs(out@);
        out.push(slice_subrange(s, start, i));
        assert(runs(out@) =~= before.push(piece));
    }
    out
}

/// A line without the carriage return of its line ending.
pub open spec fn without_return(s: Seq<char>) -> Seq<char> {
    if s.len() > 0 && s.last() == '\r' {
        s.drop_last()
    } else {
        s
    }
}

/// The lines of a text. A line ends with a line feed, optionally preceded by a
/// carriage return; the last line may lack its ending.
pub open spec fn lines(s: Seq<char>) -> Seq<Seq<char>> {
    let parts = pieces(s, at_char('\n'));
    let ended = parts.drop_last().map_values(|p: Seq<char>| without_return(p));
    if parts.last().len() == 0 {
        ended
    } else {
        ended.push(parts.last())
    }
}

pub fn split_lines<'a>(s: &'a [char]) -> (r: Vec<&'a [char]>)
    ensures
        runs(r@) == lines(s@),
{
    let parts = split_char(s, '\n');
    let ghost all = pieces(s@, at_char('\n'));
    let mut out: Vec<&'a [char]> = Vec::new();
    proof {
        lemma_pieces_nonempty(s@, at_char('\n'));
        assert(runs(parts@).len() == parts@.len());
    }
    let n: usize = parts.len() - 1;
    let mut i: usize = 0;
    while i < n
        invariant
            i <= n,
            n + 1 == parts@.len(),
            out@.len() == i,
            runs(parts@) == all,
            forall|j: int| 0 <= j < i ==> #[trigger] out@[j]@ == without_return(all[j]),
        decreases n - i,
    {
        let p = parts[i];
        assert(all[i as int] == p@);
        if p.len() > 0 && p[p.len() - 1] == '\r' {
            out.push(slice_subrange(p, 0, p.len() - 1));
            assert(out@[i as int]@ =~= without_return(p@));
        } else {
            out.push(p);
        }
        i += 1;
    }
    let last = parts[n];
    assert(all.last() == last@);
    let ghost ended = all.drop_last().map_values(|p: Seq<char>| without_return(p));
    assert(runs(out@) =~= ended);
    if last.len() > 0 {
        out.push(last);
        assert(runs(out@) =~= ended.push(all.last()));
    }
    out
}

/// There is always at least one piece.
pub proof fn lemma_pieces_nonempty(s: Seq<char>, cut: spec_fn(char) -> bool)
    ensures
        pieces(s, cut).len() > 0,
    decreases s.len(),
{
    if s.len() > 0 {
        lemma_pieces_nonempty(s.drop_last(), cut);
    }
}

/// Behind a separator, or at the start, the pieces of a text begin anew.
pub proof fn lemma_pieces_add(a: Seq<char>, b: Seq<char>, cut: spec_fn(char) -> bool)
    requires
        a.len() == 0 || cut(a.last()),
    ensures
        pieces(a + b, cut) == pieces(a, cut).drop_last() + pieces(b, cut),
    decreases b.len(),
{
    lemma_pieces_nonempty(a, cut);
    lemma_pieces_nonempty(b, cut);
    let head = pieces(a, cut).drop_last();
    if b.len() == 0 {
        assert(a + b =~= a);
        assert(pieces(a, cut).last() =~= Seq::<char>::empty());
        assert(pieces(a, cut) =~= head + pieces(b, cut));
    } else {
        let c = b.drop_last();
        lemma_pieces_add(a, c, cut);
        lemma_pieces_nonempty(c, cut);
        assert((a + b).drop_last() =~= a + c);
        assert((a + b).last() == b.last());
        let before = head + pieces(c, cut);
        assert(before.last() == pieces(c, cut).last());
        assert(before.drop_last() =~= head + pieces(c, cut).drop_last());
        assert(pieces(a + b, cut) =~= head + pieces(b, cut));
    }
}

/// Whole lines and what follows them have their lines one after the other.
pub proof fn lemma_lines_add(a: Seq<char>, b: Seq<char>)
    requires
        a.len() == 0 || a.last() == '\n',
    ensures
        lines(a + b) == lines(a) + lines(b),
{
    let cut = at_char('\n');
    lemma_pieces_add(a, b, cut);
    lemma_pieces_nonempty(a, cut);
    lemma_pieces_nonempty(b, cut);
    let head = pieces(a, cut).drop_last();
    let all = pieces(a + b, cut);
    assert(all.last() == pieces(b, cut).last());
    assert(all.drop_last() =~= head + pieces(b, cut).drop_last());
    assert(pieces(a, cut).last().len() == 0);
    assert(lines(a + b) =~= lines(a) + lines(b));
}

/// A text without separators is one piece.
pub proof fn lemma_one_piece(s: Seq<char>, cut: spec_fn(char) -> bool)
    requires
        forall|i: int| 0 <= i < s.len() ==> !cut(#[trigger] s[i]),
    ensures
        pieces(s, cut) == seq![s],
    decreases s.len(),
{
    if s.len() > 0 {
        assert forall|i: int| 0 <= i < s.drop_last().len() implies !cut(
            #[trigger] s.drop_last()[i],
        ) by {
            assert(!cut(s[i]));
        }
        lemma_one_piece(s.drop_last(), cut);
        assert(s.drop_last().push(s.last()) =~= s);
        assert(pieces(s, cut) =~= seq![s]);
    } else {
        assert(s =~= Seq::<char>::empty());
    }
}

/// A line with its ending is one line.
pub proof fn lemma_one_line(line: Seq<char>)
    requires
        !line.contains('\n'),
    ensures
        lines(line.push('\n')) == seq![without_return(line)],
{
    let cut = at_char('\n');
    assert forall|i: int| 0 <= i < line.len() implies !cut(#[trigger] line[i]) by {
        assert(line[i] != '\n');
    }
    lemma_one_piece(line, cut);
    let all = line.push('\n');
    assert(all.drop_last() =~= line);
    assert(pieces(all, cut) =~= seq![line, Seq::<char>::empty()]);
    assert(lines(all) =~= seq![without_return(line)]);
}

proof fn lemma_trim_start_push(s: Seq<char>, c: char)
    requires
        is_space(c),
    ensures
        trim_start(s.push(c)) == (if trim_start(s).len() == 0 {
            Seq::<char>::empty()
        } else {
            trim_start(s).push(c)
        }),
    decreases s.len(),
{
    let t = s.push(c);
    if s.len() == 0 {
        assert(t.drop_first() =~= Seq::<char>::empty());
        assert(trim_start(t) == trim_start(t.drop_first()));
    } else if is_space(s[0]) {
        assert(t[0] == s[0]);
        assert(t.drop_first() =~= s.drop_first().push(c));
        lemma_trim_start_push(s.drop_first(), c);
    } else {
        assert(t[0] == s[0]);
    }
}

/// Trimming removes a carriage return at the end anyway.
pub proof fn lemma_trim_without_return(line: Seq<char>)
    ensures
        trim(without_return(line)) == trim(line),
{
    if line.len() > 0 && line.last() == '\r' {
        let s = line.drop_last();
        assert(line =~= s.push('\r'));
        lemma_trim_start_push(s, '\r');
        let t = trim_start(s);
        if t.len() > 0 {
            assert(t.push('\r').drop_last() =~= t);
        } else {
            assert(t =~= Seq::<char>::empty());
        }
    }
}

/// Texts strung together with a separator between neighbours.
pub open spec fn join(parts: Seq<Seq<char>>, sep: Seq<char>) -> Seq<char>
    decreases parts.len(),
{
    if parts.len() == 0 {
        Seq::empty()
    } else if parts.len() == 1 {
        parts[0]
    } else {
        join(parts.drop_last(), sep) + sep + parts.last()
    }
}

/// The texts of a list of strings.
pub open spec fn texts(v: Seq<String>) -> Seq<Seq<char>> {
    v.map_values(|s: String| s@)
}

/// A list of the same strings.
pub fn copied(list: &Vec<String>) -> (r: Vec<String>)
    ensures
        texts(r@) == texts(list@),
{
    let mut out: Vec<String> = Vec::new();
    let mut i: usize = 0;
    while i < list.len()
        invariant
            i <= list@.len(),
            out@.len() == i,
            forall|j: int| 0 <= j < i ==> (#[trigger] out@[j])@ == list@[j]@,
        decreases list@.len() - i,
    {
        out.push(list[i].clone());
        i += 1;
    }
    assert(texts(out@) =~= texts(list@));
    out
}

pub fn joined(parts: &[String], sep: &str) -> (r: String)
    ensures
        r@ == join(texts(parts@), sep@),
{
    let mut out = String::new();
    let mut i: usize = 0;
    assert(texts(parts@).take(0) =~= Seq::empty());
    while i < parts.len()
        invariant
            i <= parts.len(),
            out@ == join(texts(parts@).take(i as int), sep@),
        decreases parts.len() - i,
    {
        let ghost prefix = texts(parts@).take(i as int);
        let ghost longer = texts(parts@).take(i + 1);
        assert(longer.drop_last() =~= prefix);
        assert(longer.last() == parts@[i as int]@);
        if i > 0 {
            out.append(sep);
        }
        out.append(parts[i].as_str());
        assert(i == 0 ==> out@ =~= longer[0]);
        i += 1;
    }
    assert(texts(parts@).take(i as int) =~= texts(parts@));
    out
}

/// A decimal or hexadecimal digit.
pub open spec fn digit(d: nat) -> char {
    if d < 10 {
        (48 + d) as char
    } else {
        (87 + d) as char
    }
}

pub fn digit_of(d: u8) -> (r: char)
    requires
        d < 16,
    ensures
        r == digit(d as nat),
{
    if d < 10 {
        (48 + d) as char
    } else {
        (87 + d) as char
    }
}

/// A number written in the given base, most significant digit first.
pub open spec fn numeral(n: nat, base: nat) -> Seq<char>
    decreases n,
{
    if base < 2 || n < base {
        seq![digit(n)]
    } else {
        proof {
            assert(n / base < n) by (nonlinear_arith)
                requires
                    base >= 2,
                    n >= base,
            ;
        }
        numeral(n / base, base).push(digit(n % base))
    }
}

pub open spec fn decimal(n: nat) -> Seq<char> {
    numeral(n, 10)
}

/// Lower-case hexadecimal with a `0x` prefix.
pub open spec fn hex(n: nat) -> Seq<char> {
    "0x"@ + numeral(n, 16)
}

pub fn numeral_of(n: u64, base: u64) -> (r: String)
    requires
        base == 10 || base == 16,
    ensures
        r@ == numeral(n as nat, base as nat),
    decreases n,
{
    if n < base {
        let mut out = String::new();
        out.push(digit_of(n as u8));
        assert(out@ =~= seq![digit(n as nat)]);
        out
    } else {
        let mut out = numeral_of(n / base, base);
        out.push(digit_of((n % base) as u8));
        out
    }
}

pub fn decimal_of(n: u64) -> (r: String)
    ensures
        r@ == decimal(n as nat),
{
    numeral_of(n, 10)
}

pub fn hex_of(n: u64) -> (r: String)
    ensures
        r@ == hex(n as nat),
{
    let digits = numeral_of(n, 16);
    owned("0x").concat(digits.as_str())
}

/// A run of blanks.
pub open spec fn blanks(n: nat) -> Seq<char> {
    Seq::new(n, |i: int| ' ')
}

/// Text padded on the right with blanks to a width counted in characters.
pub open spec fn pad(s: Seq<char>, width: nat) -> Seq<char> {
    s + blanks(if s.len() < width { (width - s.len()) as nat } else { 0 })
}

pub fn push_padded(out: &mut String, s: &str, width: usize)
    ensures
        final(out)@ == old(out)@ + pad(s@, width as nat),
{
    out.append(s);
    let mut n: usize = s.unicode_len();
    let ghost base = out@;
    let ghost len = s@.len();
    assert(out@ =~= base + blanks(0));
    while n < width
        invariant
            len <= n,
            n <= width || n == len,
            out@ == base + blanks((n - len) as nat),
        decreases width - n,
    {
        out.push(' ');
        n += 1;
        assert(blanks((n - len) as nat) =~= blanks((n - 1 - len) as nat).push(' '));
        assert(out@ =~= base + blanks((n - len) as nat));
    }
    assert(out@ =~= old(out)@ + pad(s@, width as nat));
}

/// Texts strung together.
pub open spec fn concat(parts: Seq<Seq<char>>) -> Seq<char>
    decreases parts.len(),
{
    if parts.len() == 0 {
        Seq::empty()
    } else {
        concat(parts.drop_last()) + parts.last()
    }
}

pub proof fn lemma_concat_push(parts: Seq<Seq<char>>, last: Seq<char>)
    ensures
        concat(parts.push(last)) == concat(parts) + last,
{
    assert(parts.push(last).drop_last() =~= parts);
}

} // verus!
