//! Laws of texts: numbers, words, lines, and the order of texts.

use crate::evidence_laws::is_blank;
use crate::order::{bytes_before, text_before};
use crate::search_laws::lemma_filter_add;
use crate::text::{
    at_space, decimal, digit, hex, is_space, join, lemma_lines_add, lemma_one_line, lemma_one_piece,
    lemma_pieces_add, lines, numeral, pieces, trim, trim_end, trim_start, words,
};
use vstd::prelude::*;
use vstd::utf8::*;

verus! {

/// What a digit counts.
pub open spec fn digit_value(c: char) -> int {
    if '0' <= c <= '9' {
        c as int - 48
    } else if 'a' <= c <= 'f' {
        c as int - 87
    } else {
        -1
    }
}

/// What digits count in a base.
pub open spec fn digits_value(s: Seq<char>, base: int) -> int
    decreases s.len(),
{
    if s.len() == 0 {
        0
    } else {
        digits_value(s.drop_last(), base) * base + digit_value(s.last())
    }
}

/// Digits of a base, without a needless zero in front.
pub open spec fn is_number(s: Seq<char>, base: int) -> bool {
    &&& s.len() > 0
    &&& s.len() > 1 ==> s[0] != '0'
    &&& forall|i: int| 0 <= i < s.len() ==> 0 <= digit_value(#[trigger] s[i]) < base
}

proof fn lemma_numeral(n: nat, base: nat)
    requires
        base == 10 || base == 16,
    ensures
        is_number(numeral(n, base), base as int),
        digits_value(numeral(n, base), base as int) == n,
        n > 0 ==> numeral(n, base)[0] != '0',
    decreases n,
{
    let s = numeral(n, base);
    if n < base {
        assert(digit_value(digit(n)) == n);
        assert(s =~= seq![digit(n)]);
        assert(s.drop_last() =~= Seq::<char>::empty());
        assert(digits_value(s.drop_last(), base as int) == 0);
    } else {
        assert(n / base < n && n / base > 0) by (nonlinear_arith)
            requires
                base >= 2,
                n >= base,
        ;
        lemma_numeral(n / base, base);
        let front = numeral(n / base, base);
        assert(s == front.push(digit(n % base)));
        assert(s.drop_last() =~= front);
        assert(n % base < base) by (nonlinear_arith)
            requires
                base >= 2,
        ;
        assert(digit_value(digit(n % base)) == n % base);
        assert((n / base) * base + n % base == n) by (nonlinear_arith)
            requires
                base >= 2,
        ;
        assert(s[0] == front[0]);
    }
}

/// A number in decimal, and in hexadecimal behind `0x`, counts what it should.
pub proof fn law_numbers_are_readable(n: nat)
    ensures
        is_number(decimal(n), 10),
        digits_value(decimal(n), 10) == n,
        hex(n).len() > 2 && hex(n)[0] == '0' && hex(n)[1] == 'x',
        is_number(hex(n).skip(2), 16),
        digits_value(hex(n).skip(2), 16) == n,
{
    reveal_strlit("0x");
    lemma_numeral(n, 10);
    lemma_numeral(n, 16);
    assert(hex(n).skip(2) =~= numeral(n, 16));
}

/// The order of texts is that of their UTF-8 bytes: the first byte that differs
/// decides, and a text that ends there comes first.
pub proof fn law_texts_are_ordered_by_bytes(a: Seq<char>, b: Seq<char>)
    ensures
        text_before(a, b) <==> exists|i: int| #[trigger]
            differ_at(encode_utf8(a), encode_utf8(b), i),
{
    lemma_bytes(encode_utf8(a), encode_utf8(b));
}

/// Two byte strings agree up to `i`, where the first ends or has the smaller byte.
pub open spec fn differ_at(a: Seq<u8>, b: Seq<u8>, i: int) -> bool {
    &&& 0 <= i <= a.len()
    &&& i < b.len()
    &&& forall|j: int| 0 <= j < i ==> (#[trigger] a[j]) == b[j]
    &&& i == a.len() || a[i] < b[i]
}

proof fn lemma_bytes(a: Seq<u8>, b: Seq<u8>)
    ensures
        bytes_before(a, b) <==> exists|i: int| #[trigger] differ_at(a, b, i),
    decreases a.len(),
{
    if b.len() > 0 && (a.len() == 0 || a[0] < b[0]) {
        assert(differ_at(a, b, 0));
    } else if b.len() > 0 && a[0] == b[0] {
        let x = a.drop_first();
        let y = b.drop_first();
        lemma_bytes(x, y);
        if bytes_before(x, y) {
            let i = choose|i: int| #[trigger] differ_at(x, y, i);
            assert forall|j: int| 0 <= j < i + 1 implies (#[trigger] a[j]) == b[j] by {
                if j > 0 {
                    assert(x[j - 1] == y[j - 1]);
                }
            }
            assert(differ_at(a, b, i + 1));
        }
        if exists|i: int| #[trigger] differ_at(a, b, i) {
            let i = choose|i: int| #[trigger] differ_at(a, b, i);
            assert(i > 0);
            assert forall|j: int| 0 <= j < i - 1 implies (#[trigger] x[j]) == y[j] by {
                assert(a[j + 1] == b[j + 1]);
            }
            assert(differ_at(x, y, i - 1));
        }
    } else if b.len() > 0 {
        assert forall|i: int| #[trigger] differ_at(a, b, i) implies false by {
            if i > 0 {
                assert(a[0] == b[0]);
            }
        }
    }
}

/// A text without blanks at its ends: what is left has none there, and what was taken
/// away are blanks.
pub proof fn law_trimming_takes_blanks_off(s: Seq<char>) -> (cut: (int, int))
    ensures
        0 <= cut.0 <= cut.1 <= s.len(),
        trim(s) == s.subrange(cut.0, cut.1),
        forall|i: int| 0 <= i < cut.0 ==> is_blank(#[trigger] s[i]),
        forall|i: int| cut.1 <= i < s.len() ==> is_blank(#[trigger] s[i]),
        cut.0 < cut.1 ==> !is_blank(s[cut.0]) && !is_blank(s[cut.1 - 1]),
{
    let a = lemma_trim_start(s);
    let t = s.skip(a);
    let n = lemma_trim_end(t);
    assert(t.take(n) =~= s.subrange(a, a + n));
    assert forall|i: int| a + n <= i < s.len() implies is_blank(#[trigger] s[i]) by {
        assert(t[i - a] == s[i]);
    }
    if n > 0 {
        assert(t[0] == s[a] && t[n - 1] == s[a + n - 1]);
    }
    (a, a + n)
}

proof fn lemma_trim_start(s: Seq<char>) -> (a: int)
    ensures
        0 <= a <= s.len(),
        trim_start(s) == s.skip(a),
        forall|i: int| 0 <= i < a ==> is_blank(#[trigger] s[i]),
        a < s.len() ==> !is_blank(s[a]),
    decreases s.len(),
{
    if s.len() > 0 && is_space(s[0]) {
        let t = s.drop_first();
        let a = lemma_trim_start(t);
        assert(t.skip(a) =~= s.skip(a + 1));
        assert forall|i: int| 0 <= i < a + 1 implies is_blank(#[trigger] s[i]) by {
            if i > 0 {
                assert(t[i - 1] == s[i]);
            }
        }
        if a < t.len() {
            assert(t[a] == s[a + 1]);
        }
        a + 1
    } else {
        assert(s.skip(0) =~= s);
        0
    }
}

pub proof fn lemma_trim_end(s: Seq<char>) -> (n: int)
    ensures
        0 <= n <= s.len(),
        trim_end(s) == s.take(n),
        forall|i: int| n <= i < s.len() ==> is_blank(#[trigger] s[i]),
        n > 0 ==> !is_blank(s[n - 1]),
    decreases s.len(),
{
    if s.len() > 0 && is_space(s.last()) {
        let t = s.drop_last();
        let n = lemma_trim_end(t);
        assert(t.take(n) =~= s.take(n));
        assert forall|i: int| n <= i < s.len() implies is_blank(#[trigger] s[i]) by {
            if i < t.len() {
                assert(t[i] == s[i]);
            }
        }
        if n > 0 {
            assert(t[n - 1] == s[n - 1]);
        }
        n
    } else {
        assert(s.take(s.len() as int) =~= s);
        s.len() as int
    }
}

/// Words are separated by blanks: none between two blanks, and a run without blanks is
/// one word.
pub proof fn law_words_are_separated_by_blanks(a: Seq<char>, c: char, b: Seq<char>)
    requires
        is_blank(c),
    ensures
        words(a.push(c) + b) == words(a) + words(b),
        words(Seq::empty()) == Seq::<Seq<char>>::empty(),
        a.len() > 0 && (forall|i: int| 0 <= i < a.len() ==> !is_blank(#[trigger] a[i])) ==> words(a)
            == seq![a],
{
    let cut = at_space();
    let full = |p: Seq<char>| p.len() > 0;
    let head = a.push(c);
    assert(is_space(c));
    assert(head.drop_last() =~= a);
    lemma_pieces_add(head, b, cut);
    assert(pieces(head, cut).drop_last() =~= pieces(a, cut));
    lemma_filter_add(pieces(a, cut), pieces(b, cut), full);
    reveal(Seq::filter);
    let none = Seq::<char>::empty();
    assert(pieces(none, cut) =~= seq![none]);
    assert(seq![none].drop_last() =~= Seq::<Seq<char>>::empty());
    assert(Seq::<Seq<char>>::empty().filter(full) =~= Seq::<Seq<char>>::empty());
    assert(seq![none].filter(full) =~= Seq::<Seq<char>>::empty());
    if a.len() > 0 && (forall|i: int| 0 <= i < a.len() ==> !is_blank(#[trigger] a[i])) {
        assert forall|i: int| 0 <= i < a.len() implies !cut(#[trigger] a[i]) by {
            assert(!is_blank(a[i]));
        }
        lemma_one_piece(a, cut);
        assert(seq![a].drop_last() =~= Seq::<Seq<char>>::empty());
        assert(seq![a].filter(full) =~= seq![a]);
    }
}

/// A line ends at its line feed; a carriage return before that belongs to the ending.
/// The last line may lack its line feed, and an empty text has no lines.
pub proof fn law_lines_end_with_line_feeds(line: Seq<char>, rest: Seq<char>)
    requires
        !line.contains('\n'),
    ensures
        lines(line.push('\n') + rest) == seq![
            if line.len() > 0 && line.last() == '\r' {
                line.drop_last()
            } else {
                line
            },
        ] + lines(rest),
        line.len() > 0 ==> lines(line) == seq![line],
        lines(Seq::empty()) == Seq::<Seq<char>>::empty(),
{
    lemma_one_line(line);
    lemma_lines_add(line.push('\n'), rest);
    let cut = crate::text::at_char('\n');
    assert forall|i: int| 0 <= i < line.len() implies !cut(#[trigger] line[i]) by {
        assert(line.contains(line[i]));
    }
    lemma_one_piece(line, cut);
    let none = Seq::<char>::empty();
    assert(pieces(none, cut) =~= seq![none]);
    assert(lines(none) =~= Seq::<Seq<char>>::empty());
    if line.len() > 0 {
        assert(lines(line) =~= seq![line]);
    }
}

/// Texts strung together have the separator between neighbours and nowhere else.
pub proof fn law_joining_puts_separators_between(
    a: Seq<Seq<char>>,
    b: Seq<Seq<char>>,
    sep: Seq<char>,
    one: Seq<char>,
)
    ensures
        join(Seq::empty(), sep) == Seq::<char>::empty(),
        join(seq![one], sep) == one,
        a.len() > 0 && b.len() > 0 ==> join(a + b, sep) == join(a, sep) + sep + join(b, sep),
{
    if a.len() > 0 && b.len() > 0 {
        lemma_join_add(a, b, sep);
    }
}

proof fn lemma_join_add(a: Seq<Seq<char>>, b: Seq<Seq<char>>, sep: Seq<char>)
    requires
        a.len() > 0,
        b.len() > 0,
    ensures
        join(a + b, sep) == join(a, sep) + sep + join(b, sep),
    decreases b.len(),
{
    assert((a + b).drop_last() =~= a + b.drop_last());
    if b.len() == 1 {
        assert(a + b.drop_last() =~= a);
        assert(join(b, sep) == b[0]);
    } else {
        lemma_join_add(a, b.drop_last(), sep);
        assert(join(a + b, sep) =~= join(a, sep) + sep + join(b, sep));
    }
}

} // verus!
