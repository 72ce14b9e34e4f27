//! Slash-separated paths as text: joining, parents and components.

use crate::order::{lemma_text_connected, lemma_text_irreflexive, lemma_text_transitive};
use crate::order::{relate_text, text_before, Ordered, Relation};
use crate::text::{
    at_char, chars_of, is_text, join, joined, owned, pieces, push_chars, runs, same_text,
    split_char, string_of, texts,
};
use vstd::prelude::*;
use vstd::slice::slice_subrange;

verus! {

/// A path that starts at the root of the file system.
pub open spec fn is_absolute(p: Seq<char>) -> bool {
    p.len() > 0 && p[0] == '/'
}

pub fn absolute(p: &[char]) -> (r: bool)
    ensures
        r == is_absolute(p@),
{
    p.len() > 0 && p[0] == '/'
}

/// A path below a directory; an absolute path stands on its own.
pub open spec fn below(dir: Seq<char>, p: Seq<char>) -> Seq<char> {
    if is_absolute(p) {
        p
    } else if dir.len() > 0 && dir.last() != '/' {
        dir.push('/') + p
    } else {
        dir + p
    }
}

pub fn path_below(dir: &str, p: &str) -> (r: String)
    ensures
        r@ == below(dir@, p@),
{
    let d = chars_of(dir);
    let name = chars_of(p);
    if absolute(&name) {
        return owned(p);
    }
    let mut out = owned(dir);
    if d.len() > 0 && d[d.len() - 1] != '/' {
        out.push('/');
    }
    push_chars(&mut out, &name);
    out
}

/// Where the components behind a leading slash or dot begin.
pub open spec fn body_start(p: Seq<char>) -> int {
    if is_absolute(p) || (p.len() > 0 && p[0] == '.' && (p.len() == 1 || p[1] == '/')) {
        1
    } else {
        0
    }
}

/// Where the last piece of a path begins: behind the last slash at `b` or later.
pub open spec fn last_piece(p: Seq<char>, b: int) -> int
    decreases p.len(),
{
    if p.len() == 0 || p.len() <= b {
        b
    } else if p.last() == '/' {
        p.len() as int
    } else {
        last_piece(p.drop_last(), b)
    }
}

/// A path without its last piece and the slash before that.
pub open spec fn without_last(p: Seq<char>, b: int) -> Seq<char> {
    if last_piece(p, b) > b {
        p.take(last_piece(p, b) - 1)
    } else {
        p.take(b)
    }
}

/// An empty piece or a dot, which is no component.
pub open spec fn is_no_component(piece: Seq<char>) -> bool {
    piece.len() == 0 || piece == "."@
}

pub proof fn lemma_last_piece(p: Seq<char>, b: int)
    requires
        0 <= b,
    ensures
        b <= last_piece(p, b),
        p.len() >= b ==> last_piece(p, b) <= p.len(),
        last_piece(p, b) > b ==> p[last_piece(p, b) - 1] == '/',
    decreases p.len(),
{
    if p.len() > b && p.last() != '/' {
        lemma_last_piece(p.drop_last(), b);
    }
}

/// A path without trailing pieces that are no components.
pub open spec fn trimmed_path(p: Seq<char>, b: int) -> Seq<char>
    decreases p.len(),
{
    if p.len() <= b || b < 0 {
        p
    } else if is_no_component(p.skip(last_piece(p, b))) {
        proof {
            lemma_last_piece(p, b);
        }
        trimmed_path(without_last(p, b), b)
    } else {
        p
    }
}

/// The directory of a path: the path without its last component. The root
/// directory and the empty path have none.
pub open spec fn parent(p: Seq<char>) -> Option<Seq<char>> {
    let b = body_start(p);
    let t = trimmed_path(p, b);
    if t.len() > b {
        Some(trimmed_path(without_last(t, b), b))
    } else if b == 1 && !is_absolute(p) {
        Some(Seq::empty())
    } else {
        None
    }
}

fn find_last_piece(p: &[char], b: usize) -> (r: usize)
    requires
        b <= p@.len(),
    ensures
        r == last_piece(p@, b as int),
        b <= r <= p@.len(),
{
    let mut i: usize = p.len();
    assert(p@.take(i as int) =~= p@);
    while i > b
        invariant
            b <= i <= p@.len(),
            last_piece(p@, b as int) == last_piece(p@.take(i as int), b as int),
        decreases i,
    {
        assert(p@.take(i as int).drop_last() =~= p@.take(i - 1));
        if p[i - 1] == '/' {
            return i;
        }
        i = i - 1;
    }
    b
}

fn drop_last_piece<'a>(p: &'a [char], b: usize) -> (r: &'a [char])
    requires
        b <= p@.len(),
    ensures
        r@ == without_last(p@, b as int),
        r@.len() <= p@.len(),
        r@.len() >= b,
        p@.len() > b ==> r@.len() < p@.len(),
{
    let at: usize = find_last_piece(p, b);
    if at > b {
        let r = slice_subrange(p, 0, at - 1);
        assert(r@ =~= p@.take(at - 1));
        r
    } else {
        let r = slice_subrange(p, 0, b);
        assert(r@ =~= p@.take(b as int));
        r
    }
}

fn trim_path<'a>(p: &'a [char], b: usize) -> (r: &'a [char])
    requires
        b <= p@.len(),
    ensures
        r@ == trimmed_path(p@, b as int),
        r@.len() >= b,
{
    let mut rest = p;
    while rest.len() > b
        invariant
            b <= rest@.len(),
            trimmed_path(p@, b as int) == trimmed_path(rest@, b as int),
        ensures
            rest@ == trimmed_path(p@, b as int),
        decreases rest@.len(),
    {
        let at: usize = find_last_piece(rest, b);
        let piece = slice_subrange(rest, at, rest.len());
        assert(piece@ =~= rest@.skip(at as int));
        if piece.len() > 0 && !is_text(piece, ".") {
            break;
        }
        rest = drop_last_piece(rest, b);
    }
    rest
}

pub fn parent_of(p: &str) -> (r: Option<String>)
    ensures
        match r {
            Some(s) => parent(p@) == Some(s@),
            None => parent(p@) is None,
        },
{
    let chars = chars_of(p);
    let rooted = absolute(&chars);
    let b: usize = if rooted || (chars.len() > 0 && chars[0] == '.' && (chars.len() == 1
        || chars[1] == '/')) {
        1
    } else {
        0
    };
    let t = trim_path(&chars, b);
    if t.len() > b {
        Some(string_of(trim_path(drop_last_piece(t, b), b)))
    } else if b == 1 && !rooted {
        let empty = String::new();
        assert(empty@ =~= Seq::<char>::empty());
        Some(empty)
    } else {
        None
    }
}

/// The components of a path. A leading slash, or a leading dot, is one of them.
pub open spec fn components(p: Seq<char>) -> Seq<Seq<char>> {
    (if body_start(p) == 1 {
        seq![p.take(1)]
    } else {
        Seq::empty()
    }) + pieces(p, at_char('/')).filter(|piece: Seq<char>| !is_no_component(piece))
}

pub fn components_of(p: &str) -> (r: Vec<String>)
    ensures
        texts(r@) == components(p@),
{
    let chars = chars_of(p);
    let parts = split_char(&chars, '/');
    let ghost all = pieces(p@, at_char('/'));
    let ghost keep = |piece: Seq<char>| !is_no_component(piece);
    let mut out: Vec<String> = Vec::new();
    if absolute(&chars) || (chars.len() > 0 && chars[0] == '.' && (chars.len() == 1 || chars[1]
        == '/')) {
        let head = slice_subrange(&chars, 0, 1);
        assert(head@ =~= p@.take(1));
        out.push(string_of(head));
    }
    let ghost lead = texts(out@);
    assert(lead =~= (if body_start(p@) == 1 {
        seq![p@.take(1)]
    } else {
        Seq::empty()
    }));
    let mut i: usize = 0;
    assert(texts(out@) =~= lead + all.take(0).filter(keep));
    while i < parts.len()
        invariant
            i <= parts@.len(),
            runs(parts@) == all,
            keep == (|piece: Seq<char>| !is_no_component(piece)),
            texts(out@) == lead + all.take(i as int).filter(keep),
        decreases parts@.len() - i,
    {
        let piece = parts[i];
        let ghost before = texts(out@);
        assert(all[i as int] == piece@);
        proof {
            assert(all.take(i + 1) =~= all.take(i as int).push(piece@));
            all.take(i as int).lemma_filter_push(piece@, keep);
        }
        if piece.len() > 0 && !is_text(piece, ".") {
            out.push(string_of(piece));
            assert(texts(out@) =~= before.push(piece@));
            assert(texts(out@) =~= lead + all.take(i as int).filter(keep).push(piece@));
        }
        i = i + 1;
    }
    assert(all.take(all.len() as int) =~= all);
    out
}

/// A path lies in a directory or is it.
pub open spec fn is_inside(dir: Seq<char>, p: Seq<char>) -> bool {
    components(dir).is_prefix_of(components(p))
}

/// A path inside a directory, seen from there.
pub open spec fn relative_to(dir: Seq<char>, p: Seq<char>) -> Option<Seq<char>> {
    if is_inside(dir, p) {
        Some(join(components(p).skip(components(dir).len() as int), "/"@))
    } else {
        None
    }
}

pub fn relative_path(dir: &str, p: &str) -> (r: Option<String>)
    ensures
        match r {
            Some(s) => relative_to(dir@, p@) == Some(s@),
            None => relative_to(dir@, p@) is None,
        },
{
    let base = components_of(dir);
    let all = components_of(p);
    if base.len() > all.len() {
        return None;
    }
    let mut i: usize = 0;
    while i < base.len()
        invariant
            i <= base@.len() <= all@.len(),
            texts(base@) == components(dir@),
            texts(all@) == components(p@),
            forall|j: int| 0 <= j < i ==> #[trigger] texts(base@)[j] == texts(all@)[j],
        decreases base@.len() - i,
    {
        assert(texts(base@)[i as int] == base@[i as int]@);
        assert(texts(all@)[i as int] == all@[i as int]@);
        if !same_text(base[i].as_str(), all[i].as_str()) {
            return None;
        }
        i = i + 1;
    }
    let rest = slice_subrange(all.as_slice(), base.len(), all.len());
    assert(components(dir@) =~= components(p@).take(base@.len() as int));
    assert(texts(rest@) =~= components(p@).skip(base@.len() as int));
    Some(joined(rest, "/"))
}

/// Lexicographic order of lists of texts; a proper prefix comes first.
pub open spec fn list_before(a: Seq<Seq<char>>, b: Seq<Seq<char>>) -> bool
    decreases a.len(),
{
    if b.len() == 0 {
        false
    } else if a.len() == 0 {
        true
    } else if a[0] == b[0] {
        list_before(a.drop_first(), b.drop_first())
    } else {
        text_before(a[0], b[0])
    }
}

/// The components of a path, as paths are ordered by them.
pub struct Components {
    pub parts: Vec<String>,
}

impl View for Components {
    type V = Seq<Seq<char>>;

    open spec fn view(&self) -> Seq<Seq<char>> {
        texts(self.parts@)
    }
}

proof fn lemma_list_irreflexive(a: Seq<Seq<char>>)
    ensures
        !list_before(a, a),
    decreases a.len(),
{
    if a.len() > 0 {
        lemma_list_irreflexive(a.drop_first());
    }
}

proof fn lemma_list_transitive(a: Seq<Seq<char>>, b: Seq<Seq<char>>, c: Seq<Seq<char>>)
    requires
        list_before(a, b),
        list_before(b, c),
    ensures
        list_before(a, c),
    decreases a.len(),
{
    if a.len() > 0 {
        if a[0] == b[0] && b[0] == c[0] {
            lemma_list_transitive(a.drop_first(), b.drop_first(), c.drop_first());
        } else if a[0] != b[0] && b[0] != c[0] {
            lemma_text_transitive(a[0], b[0], c[0]);
            lemma_text_irreflexive(a[0]);
        }
    }
}

proof fn lemma_list_connected(a: Seq<Seq<char>>, b: Seq<Seq<char>>)
    ensures
        a == b || list_before(a, b) || list_before(b, a),
    decreases a.len(),
{
    if a.len() == 0 || b.len() == 0 {
        if a.len() == 0 && b.len() == 0 {
            assert(a =~= b);
        }
    } else if a[0] == b[0] {
        lemma_list_connected(a.drop_first(), b.drop_first());
        if a.drop_first() == b.drop_first() {
            assert(a =~= seq![a[0]] + a.drop_first());
            assert(b =~= seq![b[0]] + b.drop_first());
        }
    } else {
        lemma_text_connected(a[0], b[0]);
    }
}

/// A common prefix does not decide the order.
proof fn lemma_list_prefix(a: Seq<Seq<char>>, b: Seq<Seq<char>>, i: int)
    requires
        0 <= i <= a.len(),
        i <= b.len(),
        forall|j: int| 0 <= j < i ==> a[j] == b[j],
    ensures
        list_before(a, b) == list_before(a.skip(i), b.skip(i)),
    decreases i,
{
    if i == 0 {
        assert(a.skip(0) =~= a);
        assert(b.skip(0) =~= b);
    } else {
        assert forall|j: int| 0 <= j < i - 1 implies a.drop_first()[j] == b.drop_first()[j] by {
            assert(a[j + 1] == b[j + 1]);
        }
        lemma_list_prefix(a.drop_first(), b.drop_first(), i - 1);
        assert(a.drop_first().skip(i - 1) =~= a.skip(i));
        assert(b.drop_first().skip(i - 1) =~= b.skip(i));
    }
}

impl Ordered for Components {
    open spec fn before(a: Seq<Seq<char>>, b: Seq<Seq<char>>) -> bool {
        list_before(a, b)
    }

    proof fn irreflexive(a: Seq<Seq<char>>) {
        lemma_list_irreflexive(a);
    }

    proof fn transitive(a: Seq<Seq<char>>, b: Seq<Seq<char>>, c: Seq<Seq<char>>) {
        lemma_list_transitive(a, b, c);
    }

    proof fn connected(a: Seq<Seq<char>>, b: Seq<Seq<char>>) {
        lemma_list_connected(a, b);
    }

    fn relate(&self, other: &Self) -> Relation {
        let ghost a = self@;
        let ghost b = other@;
        let mut i: usize = 0;
        while i < self.parts.len() && i < other.parts.len()
            invariant
                i <= self.parts@.len(),
                i <= other.parts@.len(),
                a == self@,
                b == other@,
                forall|j: int| 0 <= j < i ==> a[j] == b[j],
            decreases self.parts@.len() - i,
        {
            assert(a[i as int] == self.parts@[i as int]@);
            assert(b[i as int] == other.parts@[i as int]@);
            match relate_text(self.parts[i].as_str(), other.parts[i].as_str()) {
                Relation::Same => {
                    i = i + 1;
                },
                Relation::Before => {
                    proof {
                        lemma_list_prefix(a, b, i as int);
                        lemma_text_irreflexive(a[i as int]);
                    }
                    return Relation::Before;
                },
                Relation::After => {
                    proof {
                        lemma_list_prefix(b, a, i as int);
                        lemma_text_irreflexive(a[i as int]);
                    }
                    return Relation::After;
                },
            }
        }
        proof {
            lemma_list_prefix(a, b, i as int);
            lemma_list_prefix(b, a, i as int);
        }
        if self.parts.len() < other.parts.len() {
            Relation::Before
        } else if other.parts.len() < self.parts.len() {
            Relation::After
        } else {
            assert(a =~= b);
            Relation::Same
        }
    }
}

} // verus!
