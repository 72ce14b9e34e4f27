//! Laws of paths.

use crate::paths::{
    below, body_start, components, is_inside, is_no_component, last_piece, parent, relative_to,
    trimmed_path, without_last,
};
use crate::scan::root_of;
use crate::text::{at_char, join, lemma_one_piece, lemma_pieces_add, pieces};
use vstd::prelude::*;

verus! {

/// A name that can stand between two slashes: not empty, no dot alone, no slash.
pub open spec fn is_plain(name: Seq<char>) -> bool {
    name.len() > 0 && name != seq!['.'] && !name.contains('/')
}

/// A name below a directory, with a slash between them.
pub open spec fn path_in(dir: Seq<char>, name: Seq<char>) -> Seq<char> {
    dir.push('/') + name
}

proof fn lemma_dot(name: Seq<char>)
    ensures
        is_no_component(name) <==> name.len() == 0 || name == seq!['.'],
{
    reveal_strlit(".");
    assert("."@ =~= seq!['.']);
}

proof fn lemma_pieces_of(dir: Seq<char>, name: Seq<char>)
    requires
        !name.contains('/'),
    ensures
        pieces(path_in(dir, name), at_char('/')) == pieces(dir, at_char('/')).push(name),
        pieces(name, at_char('/')) == seq![name],
{
    let cut = at_char('/');
    assert forall|i: int| 0 <= i < name.len() implies !cut(#[trigger] name[i]) by {
        assert(name.contains(name[i]));
    }
    lemma_one_piece(name, cut);
    let head = dir.push('/');
    assert(head.drop_last() =~= dir);
    lemma_pieces_add(head, name, cut);
    assert(pieces(head, cut).drop_last() =~= pieces(dir, cut));
    assert(pieces(path_in(dir, name), cut) =~= pieces(dir, cut).push(name));
}

/// A plain name is its own only component, a slash alone is the root directory, and a
/// plain name below a directory is one component more.
pub proof fn law_components_add(dir: Seq<char>, name: Seq<char>)
    requires
        is_plain(name),
        dir.len() > 0,
    ensures
        components(name) == seq![name],
        components(seq!['/']) == seq![seq!['/']],
        components(path_in(dir, name)) == components(dir).push(name),
{
    let keep = |piece: Seq<char>| !is_no_component(piece);
    let p = path_in(dir, name);
    lemma_dot(name);
    lemma_pieces_of(dir, name);
    reveal(Seq::filter);
    assert(name.contains(name[0]));
    if name[0] == '.' && name.len() == 1 {
        assert(name =~= seq!['.']);
    }
    if name.len() > 1 {
        assert(name.contains(name[1]));
    }
    assert(body_start(name) == 0);
    assert(seq![name].drop_last() =~= Seq::<Seq<char>>::empty());
    assert(seq![name].filter(keep) =~= seq![name]);
    assert(components(name) =~= seq![name]);
    let all = pieces(dir, at_char('/'));
    all.lemma_filter_push(name, keep);
    assert(p[0] == dir[0]);
    assert(body_start(p) == body_start(dir));
    assert(p.take(1) =~= dir.take(1));
    assert(components(p) =~= components(dir).push(name));
    let slash = seq!['/'];
    let cut = at_char('/');
    let none = Seq::<char>::empty();
    assert(slash.drop_last() =~= none);
    assert(pieces(none, cut) =~= seq![none]);
    assert(pieces(slash, cut) =~= seq![none, none]);
    assert(seq![none, none].drop_last() =~= seq![none]);
    assert(seq![none].drop_last() =~= Seq::<Seq<char>>::empty());
    assert(!keep(none));
    assert(Seq::<Seq<char>>::empty().filter(keep) =~= Seq::<Seq<char>>::empty());
    assert(seq![none].filter(keep) =~= Seq::<Seq<char>>::empty());
    assert(seq![none, none].filter(keep) =~= Seq::<Seq<char>>::empty());
    assert(slash.take(1) =~= slash);
    assert(components(slash) =~= seq![slash]);
}

/// Doubled slashes and single dots make no difference.
pub proof fn law_empty_components_do_not_count(dir: Seq<char>)
    requires
        dir.len() > 0,
    ensures
        components(dir.push('/')) == components(dir),
        components(path_in(dir, seq!['.'])) == components(dir),
{
    let keep = |piece: Seq<char>| !is_no_component(piece);
    let all = pieces(dir, at_char('/'));
    let none = Seq::<char>::empty();
    let dot = seq!['.'];
    lemma_dot(none);
    lemma_dot(dot);
    assert(!dot.contains('/'));
    lemma_pieces_of(dir, none);
    lemma_pieces_of(dir, dot);
    assert(path_in(dir, none) =~= dir.push('/'));
    all.lemma_filter_push(none, keep);
    all.lemma_filter_push(dot, keep);
    assert(dir.push('/')[0] == dir[0]);
    assert(path_in(dir, dot)[0] == dir[0]);
    assert(dir.push('/').take(1) =~= dir.take(1));
    assert(path_in(dir, dot).take(1) =~= dir.take(1));
    assert(components(dir.push('/')) =~= components(dir));
    assert(components(path_in(dir, dot)) =~= components(dir));
}

/// A path lies in a directory exactly when it has all the components of the directory
/// at its front: a name that only starts like the directory's is no such path.
pub proof fn law_inside_means_the_same_components(dir: Seq<char>, p: Seq<char>)
    ensures
        is_inside(dir, p) <==> components(dir).len() <= components(p).len() && forall|i: int|
            0 <= i < components(dir).len() ==> #[trigger] components(dir)[i] == components(p)[i],
        relative_to(dir, p) is Some <==> is_inside(dir, p),
{
    let a = components(dir);
    let b = components(p);
    if a.len() <= b.len() && forall|i: int| 0 <= i < a.len() ==> #[trigger] a[i] == b[i] {
        assert(a =~= b.subrange(0, a.len() as int));
    }
    if is_inside(dir, p) {
        assert(a =~= b.subrange(0, a.len() as int));
        assert forall|i: int| 0 <= i < a.len() implies #[trigger] a[i] == b[i] by {
            assert(b.subrange(0, a.len() as int)[i] == b[i]);
        }
    }
}

/// Seen from a root, the root itself is the empty path, a name directly below it is
/// that name, and a name below another path of the root is behind that path and a
/// slash.
pub proof fn law_relative_paths(root: Seq<char>, dir: Seq<char>, name: Seq<char>)
    requires
        root.len() > 0,
        dir.len() > 0,
        is_plain(name),
        is_inside(root, dir),
    ensures
        relative_to(root, root) == Some(Seq::<char>::empty()),
        relative_to(root, path_in(root, name)) == Some(name),
        components(dir).len() > components(root).len() ==> relative_to(root, path_in(dir, name))
            == Some(path_in(relative_to(root, dir)->Some_0, name)),
{
    reveal_strlit("/");
    law_components_add(root, name);
    law_components_add(dir, name);
    let r = components(root);
    let d = components(dir);
    let n = r.len() as int;
    assert(r =~= r.subrange(0, n));
    assert(r.skip(n) =~= Seq::<Seq<char>>::empty());
    assert(r =~= r.push(name).subrange(0, n));
    assert(r.push(name).skip(n) =~= seq![name]);
    assert(join(seq![name], "/"@) == name);
    assert(r =~= d.subrange(0, n));
    assert(r =~= d.push(name).subrange(0, n)) by {
        assert forall|i: int| 0 <= i < n implies r[i] == d.push(name)[i] by {
            assert(d.subrange(0, n)[i] == d[i]);
        }
    }
    let rest = d.skip(n);
    assert(d.push(name).skip(n) =~= rest.push(name));
    if rest.len() > 0 {
        assert(rest.push(name).drop_last() =~= rest);
        assert("/"@ =~= seq!['/']);
        assert(join(rest.push(name), "/"@) =~= path_in(join(rest, "/"@), name));
    }
}

proof fn lemma_last_piece_of(dir: Seq<char>, name: Seq<char>, b: int)
    requires
        !name.contains('/'),
        0 <= b <= dir.len() + 1,
    ensures
        last_piece(path_in(dir, name), b) == dir.len() + 1,
    decreases name.len(),
{
    let p = path_in(dir, name);
    if name.len() == 0 {
        assert(p.last() == '/');
        assert(p.len() == dir.len() + 1);
    } else {
        let rest = name.drop_last();
        assert(name.contains(name.last()));
        assert(p.last() == name.last());
        assert forall|i: int| 0 <= i < rest.len() implies rest[i] != '/' by {
            assert(name.contains(name[i]));
        }
        assert(!rest.contains('/'));
        assert(p.drop_last() =~= path_in(dir, rest));
        lemma_last_piece_of(dir, rest, b);
    }
}

/// The parent of a plain name below an absolute directory is that directory.
pub proof fn law_the_parent_is_the_directory(dir: Seq<char>, last: Seq<char>, name: Seq<char>)
    requires
        dir.len() == 0 || dir[0] == '/',
        is_plain(last),
        is_plain(name),
    ensures
        parent(path_in(path_in(dir, last), name)) == Some(path_in(dir, last)),
        parent(path_in(Seq::empty(), name)) == Some(seq!['/']),
        parent(seq!['/']) is None,
{
    lemma_dot(last);
    lemma_dot(name);
    let d = path_in(dir, last);
    let p = path_in(d, name);
    assert(d[0] == '/' && p[0] == '/');
    lemma_last_piece_of(d, name, 1);
    assert(p.skip(d.len() as int + 1) =~= name);
    assert(trimmed_path(p, 1) == p);
    assert(p.take(d.len() as int) =~= d);
    assert(without_last(p, 1) == d);
    lemma_last_piece_of(dir, last, 1);
    assert(d.skip(dir.len() as int + 1) =~= last);
    assert(trimmed_path(d, 1) == d);
    let q = path_in(Seq::<char>::empty(), name);
    lemma_last_piece_of(Seq::<char>::empty(), name, 1);
    assert(q[0] == '/');
    assert(q.skip(1) =~= name);
    assert(trimmed_path(q, 1) == q);
    assert(q.take(1) =~= seq!['/']);
}

proof fn lemma_name_alone(name: Seq<char>)
    requires
        !name.contains('/'),
    ensures
        last_piece(name, 0) == 0,
    decreases name.len(),
{
    if name.len() > 0 {
        let rest = name.drop_last();
        assert(name.contains(name.last()));
        assert forall|i: int| 0 <= i < rest.len() implies rest[i] != '/' by {
            assert(name.contains(name[i]));
        }
        assert(!rest.contains('/'));
        lemma_name_alone(rest);
    }
}

proof fn lemma_plain_start(name: Seq<char>)
    requires
        is_plain(name),
    ensures
        name[0] != '/',
        name[0] == '.' ==> name.len() > 1 && name[1] != '/',
{
    assert(name.contains(name[0]));
    if name.len() > 1 {
        assert(name.contains(name[1]));
    } else {
        assert(name =~= seq![name[0]]);
    }
}

proof fn lemma_parent_of_name(name: Seq<char>)
    requires
        is_plain(name),
    ensures
        trimmed_path(name, 0) == name,
        parent(name) == Some(Seq::<char>::empty()),
{
    lemma_dot(name);
    lemma_plain_start(name);
    lemma_name_alone(name);
    assert(name.skip(0) =~= name);
    assert(name.take(0) =~= Seq::<char>::empty());
}

proof fn lemma_parent_in_name(last: Seq<char>, name: Seq<char>)
    requires
        is_plain(last),
        is_plain(name),
    ensures
        parent(path_in(last, name)) == Some(last),
{
    lemma_dot(name);
    lemma_plain_start(last);
    lemma_parent_of_name(last);
    let short = path_in(last, name);
    lemma_last_piece_of(last, name, 0);
    assert(short[0] == last[0]);
    assert(last.len() > 1 ==> short[1] == last[1]);
    assert(short.skip(last.len() as int + 1) =~= name);
    assert(trimmed_path(short, 0) == short);
    assert(short.take(last.len() as int) =~= last);
}

proof fn lemma_parent_in_directory(dir: Seq<char>, last: Seq<char>, name: Seq<char>)
    requires
        dir.len() > 0,
        dir[0] != '/',
        is_plain(last),
        is_plain(name),
    ensures
        parent(path_in(path_in(dir, last), name)) == Some(path_in(dir, last)),
{
    lemma_dot(last);
    lemma_dot(name);
    let d = path_in(dir, last);
    let q = path_in(d, name);
    let b = body_start(q);
    assert(q[0] == dir[0]);
    lemma_last_piece_of(d, name, b);
    assert(q.skip(d.len() as int + 1) =~= name);
    assert(trimmed_path(q, b) == q);
    assert(q.take(d.len() as int) =~= d);
    lemma_last_piece_of(dir, last, b);
    assert(d.skip(dir.len() as int + 1) =~= last);
    assert(trimmed_path(d, b) == d);
}

proof fn lemma_parent_behind(p: Seq<char>, piece: Seq<char>)
    requires
        p.len() > 0,
        piece.len() == 0 || piece == seq!['.'],
    ensures
        parent(path_in(p, piece)) == parent(p),
{
    lemma_dot(piece);
    let e = path_in(p, piece);
    let c = body_start(p);
    assert(e[0] == p[0]);
    assert(p.len() > 1 ==> e[1] == p[1]);
    assert(p.len() == 1 ==> e[1] == '/');
    assert(body_start(e) == c);
    assert(!piece.contains('/'));
    lemma_last_piece_of(p, piece, c);
    assert(e.skip(p.len() as int + 1) =~= piece);
    assert(e.take(p.len() as int) =~= p);
    assert(trimmed_path(e, c) == trimmed_path(p, c));
}

/// The parent of a plain name alone is the empty path; that of a plain name below a
/// relative directory is that directory. A slash or a dot at the end changes nothing.
pub proof fn law_parents_of_relative_paths(
    dir: Seq<char>,
    last: Seq<char>,
    name: Seq<char>,
    p: Seq<char>,
)
    requires
        dir.len() > 0,
        dir[0] != '/',
        is_plain(last),
        is_plain(name),
        p.len() > 0,
    ensures
        parent(name) == Some(Seq::<char>::empty()),
        parent(path_in(last, name)) == Some(last),
        parent(path_in(path_in(dir, last), name)) == Some(path_in(dir, last)),
        parent(p.push('/')) == parent(p),
        parent(path_in(p, seq!['.'])) == parent(p),
{
    lemma_parent_of_name(name);
    lemma_parent_in_name(last, name);
    lemma_parent_in_directory(dir, last, name);
    assert(path_in(p, Seq::empty()) =~= p.push('/'));
    lemma_parent_behind(p, Seq::empty());
    lemma_parent_behind(p, seq!['.']);
}

/// Dependencies are resolved in the root that was asked for. Without one it is the
/// target itself where that is a directory, the directory of a file, and the working
/// directory for a file named without one.
pub proof fn law_the_root_is_around_the_target(
    dir: Seq<char>,
    last: Seq<char>,
    name: Seq<char>,
    asked: Seq<char>,
    is_dir: bool,
)
    requires
        is_plain(last),
        is_plain(name),
    ensures
        root_of(dir, Some(asked), is_dir) == asked,
        root_of(dir, None, true) == dir,
        root_of(path_in(path_in(dir, last), name), None, false) == path_in(dir, last),
        root_of(path_in(last, name), None, false) == last,
        root_of(name, None, false) == seq!['.'],
{
    reveal_strlit(".");
    assert("."@ =~= seq!['.']);
    if dir.len() == 0 || dir[0] == '/' {
        law_the_parent_is_the_directory(dir, last, name);
        lemma_parent_of_name(name);
        lemma_parent_in_name(last, name);
    } else {
        law_parents_of_relative_paths(dir, last, name, name);
    }
}

/// A relative name stands below its directory; an absolute path stands on its own.
pub proof fn law_below_puts_a_slash(dir: Seq<char>, p: Seq<char>)
    ensures
        p.len() > 0 && p[0] == '/' ==> below(dir, p) == p,
        !(p.len() > 0 && p[0] == '/') && dir.len() > 0 && dir.last() != '/' ==> below(dir, p)
            == path_in(dir, p),
        !(p.len() > 0 && p[0] == '/') && dir.len() > 0 && dir.last() == '/' ==> below(dir, p)
            == path_in(dir.drop_last(), p),
{
    if dir.len() > 0 && dir.last() == '/' {
        assert(dir.drop_last().push('/') =~= dir);
    }
}

} // verus!
