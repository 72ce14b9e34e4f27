//! Laws of the search for dependencies: which directories are searched, and in what
//! order.

use crate::loader::{
    candidates, origin_expanded, origin_variable, search_dirs, search_path, LoadedModel,
};
use crate::loader_laws::in_chain;
use crate::text::{
    at_char, lemma_one_piece, lemma_pieces_add, lemma_position, lemma_position_is, pieces, position,
};
use vstd::prelude::*;

verus! {

/// The next object of a chain loaded the `i`th of it, and was there before.
pub open spec fn is_link(loaded: Seq<LoadedModel>, chain: Seq<int>, i: int) -> bool {
    loaded[chain[i]].loader == Some(chain[i + 1]) && 0 <= chain[i + 1] < chain[i]
}

/// The `k`th object, the object that loaded it, and so on up to one that nothing
/// loaded.
pub open spec fn is_loader_chain(loaded: Seq<LoadedModel>, chain: Seq<int>, k: int) -> bool {
    &&& chain.len() > 0
    &&& chain[0] == k
    &&& forall|i: int| 0 <= i < chain.len() - 1 ==> #[trigger] is_link(loaded, chain, i)
    &&& loaded[chain.last()].loader is None
}

/// What the `DT_RPATH` of an object says, unless it has a `DT_RUNPATH`.
pub open spec fn granted(l: LoadedModel) -> Seq<Seq<char>> {
    if l.object.elf.runpath is Some || l.object.elf.rpath is None {
        Seq::empty()
    } else {
        search_path(l.object.elf.rpath->Some_0, l.origin)
    }
}

/// For an object without a `DT_RUNPATH`, the directories of its own `DT_RPATH` come
/// first, after them those of the object that loaded it, and so on up to the
/// executable: nearer loaders before farther ones, each list in its own order, and
/// no other directory.
pub proof fn law_nearer_rpaths_come_first(loaded: Seq<LoadedModel>, chain: Seq<int>, k: int)
    requires
        is_loader_chain(loaded, chain, k),
        loaded[k].object.elf.runpath is None,
    ensures
        search_dirs(loaded, k) == chain.map_values(|j: int| granted(loaded[j])).flatten(),
{
    lemma_rpath_dirs(loaded, chain, k);
}

proof fn lemma_rpath_dirs(loaded: Seq<LoadedModel>, chain: Seq<int>, k: int)
    requires
        is_loader_chain(loaded, chain, k),
    ensures
        crate::loader::rpath_dirs(loaded, k) == chain.map_values(
            |j: int| granted(loaded[j]),
        ).flatten(),
    decreases chain.len(),
{
    let f = |j: int| granted(loaded[j]);
    let all = chain.map_values(f);
    let rest = chain.drop_first();
    assert(all.drop_first() =~= rest.map_values(f));
    assert(all.first() == granted(loaded[k]));
    assert(loaded[chain[0]].loader == loaded[k].loader);
    if chain.len() == 1 {
        assert(all.drop_first().flatten() =~= Seq::<Seq<char>>::empty());
        assert(all.flatten() =~= granted(loaded[k]));
    } else {
        let j = chain[1];
        assert(is_link(loaded, chain, 0));
        assert forall|i: int| 0 <= i < rest.len() - 1 implies #[trigger] is_link(
            loaded,
            rest,
            i,
        ) by {
            assert(is_link(loaded, chain, i + 1));
        }
        lemma_rpath_dirs(loaded, rest, j);
        assert(all.flatten() =~= granted(loaded[k]) + rest.map_values(f).flatten());
    }
}

/// The directories of an object stand before those of every object farther up its
/// loader chain: between any two such directories there is a place where the list
/// can be cut.
pub proof fn law_own_rpath_stands_before_inherited(loaded: Seq<LoadedModel>, j: int, k: int) -> (
    cut: int)
    requires
        in_chain(loaded, j, k),
        j != k,
        loaded[k].object.elf.runpath is None,
    ensures
        granted(loaded[k]).len() <= cut <= search_dirs(loaded, k).len(),
        search_dirs(loaded, k).take(granted(loaded[k]).len() as int) == granted(loaded[k]),
        granted(loaded[j]).is_prefix_of(search_dirs(loaded, k).skip(cut)),
{
    let own = granted(loaded[k]);
    let m = loaded[k].loader->Some_0;
    let cut = lemma_inherited_after(loaded, j, m);
    let rest = crate::loader::rpath_dirs(loaded, m);
    let all = search_dirs(loaded, k);
    assert(all =~= own + rest);
    assert(all.take(own.len() as int) =~= own);
    assert(all.skip(own.len() + cut) =~= rest.skip(cut));
    own.len() + cut
}

proof fn lemma_inherited_after(loaded: Seq<LoadedModel>, j: int, k: int) -> (cut: int)
    requires
        in_chain(loaded, j, k),
    ensures
        0 <= cut <= crate::loader::rpath_dirs(loaded, k).len(),
        granted(loaded[j]).is_prefix_of(crate::loader::rpath_dirs(loaded, k).skip(cut)),
    decreases k,
{
    let all = crate::loader::rpath_dirs(loaded, k);
    let own = granted(loaded[k]);
    if j == k {
        assert(all.skip(0) =~= all);
        assert(own =~= all.take(own.len() as int));
        0
    } else {
        let m = loaded[k].loader->Some_0;
        let cut = lemma_inherited_after(loaded, j, m);
        let rest = crate::loader::rpath_dirs(loaded, m);
        assert(all.skip(own.len() + cut) =~= rest.skip(cut));
        own.len() + cut
    }
}

/// An object with a `DT_RUNPATH` is served from the directories of that path, in
/// their order, and from no others.
pub proof fn law_a_runpath_is_searched_alone(loaded: Seq<LoadedModel>, k: int, list: Seq<char>)
    requires
        loaded[k].object.elf.runpath == Some(list),
    ensures
        search_dirs(loaded, k) == search_path(list, loaded[k].origin),
{
}

/// The entries of a search path are separated by colons and searched in their order.
pub proof fn law_search_paths_add(a: Seq<char>, b: Seq<char>, origin: Seq<char>)
    ensures
        search_path(a.push(':') + b, origin) == search_path(a, origin) + search_path(b, origin),
{
    let cut = at_char(':');
    let head = a.push(':');
    assert(head.drop_last() =~= a);
    lemma_pieces_add(head, b, cut);
    assert(pieces(head, cut).drop_last() =~= pieces(a, cut));
    let keep = |entry: Seq<char>| crate::loader::search_dir(entry, origin) is Some;
    let get = |entry: Seq<char>| crate::loader::search_dir(entry, origin)->Some_0;
    lemma_filter_add(pieces(a, cut), pieces(b, cut), keep);
    assert((pieces(a, cut).filter(keep) + pieces(b, cut).filter(keep)).map_values(get)
        =~= pieces(a, cut).filter(keep).map_values(get) + pieces(b, cut).filter(keep).map_values(
        get,
    ));
}

/// What a filter keeps of two lists strung together.
pub proof fn lemma_filter_add<A>(a: Seq<A>, b: Seq<A>, keep: spec_fn(A) -> bool)
    ensures
        (a + b).filter(keep) == a.filter(keep) + b.filter(keep),
    decreases b.len(),
{
    reveal(Seq::filter);
    if b.len() == 0 {
        assert(a + b =~= a);
        assert(a.filter(keep) + b.filter(keep) =~= a.filter(keep));
    } else {
        assert((a + b).drop_last() =~= a + b.drop_last());
        lemma_filter_add(a, b.drop_last(), keep);
        assert((a + b).filter(keep) =~= a.filter(keep) + b.filter(keep));
    }
}

/// One entry of a search path stands for the directory that it expands to. An empty
/// entry, one that stays relative and one with a variable that has no meaning here
/// stand for none.
pub proof fn law_one_entry_is_one_directory(entry: Seq<char>, origin: Seq<char>)
    requires
        !entry.contains(':'),
    ensures
        search_path(entry, origin) == match origin_expanded(entry, origin) {
            Some(dir) if entry.len() > 0 && dir.len() > 0 && dir[0] == '/' => seq![dir],
            _ => Seq::empty(),
        },
{
    let cut = at_char(':');
    assert forall|i: int| 0 <= i < entry.len() implies !cut(#[trigger] entry[i]) by {
        assert(entry.contains(entry[i]));
    }
    lemma_one_piece(entry, cut);
    let keep = |e: Seq<char>| crate::loader::search_dir(e, origin) is Some;
    let get = |e: Seq<char>| crate::loader::search_dir(e, origin)->Some_0;
    reveal(Seq::filter);
    let one = seq![entry];
    assert(one.drop_last() =~= Seq::<Seq<char>>::empty());
    assert(one.drop_last().filter(keep) =~= Seq::<Seq<char>>::empty());
    if keep(entry) {
        assert(one.filter(keep) =~= one);
        assert(one.filter(keep).map_values(get) =~= seq![get(entry)]);
    } else {
        assert(one.filter(keep) =~= Seq::<Seq<char>>::empty());
        assert(one.filter(keep).map_values(get) =~= Seq::<Seq<char>>::empty());
    }
}

/// Letters, digits and the underscore: what a variable name goes on with.
pub open spec fn goes_on(c: char) -> bool {
    'a' <= c <= 'z' || 'A' <= c <= 'Z' || '0' <= c <= '9' || c == '_'
}

/// A text that starts with a word.
pub open spec fn starts(t: Seq<char>, word: Seq<char>) -> bool {
    t.len() >= word.len() && t.take(word.len() as int) == word
}

/// A text behind a dollar sign that names the origin, bare or in braces.
pub open spec fn names_origin(t: Seq<char>) -> bool {
    starts(t, "{ORIGIN}"@) || (starts(t, "ORIGIN"@) && !(t.len() > 6 && goes_on(t[6])))
}

/// An entry without a dollar sign is taken as it is.
pub proof fn law_plain_entries_stay(entry: Seq<char>, origin: Seq<char>)
    requires
        !entry.contains('$'),
    ensures
        origin_expanded(entry, origin) == Some(entry),
{
    lemma_position(entry, '$');
    let p = position(entry, '$');
    if p < entry.len() {
        assert(entry.contains(entry[p]));
    }
}

/// `${ORIGIN}` and `$ORIGIN` become the origin, wherever in the entry they stand;
/// what stands before them is kept, and what follows is expanded in turn.
pub proof fn law_the_origin_is_put_in(head: Seq<char>, rest: Seq<char>, origin: Seq<char>)
    requires
        !head.contains('$'),
    ensures
        origin_expanded(head + "${ORIGIN}"@ + rest, origin) == match origin_expanded(
            rest,
            origin,
        ) {
            Some(t) => Some(head + origin + t),
            None => None,
        },
        !(rest.len() > 0 && goes_on(rest[0])) ==> origin_expanded(
            head + "$ORIGIN"@ + rest,
            origin,
        ) == match origin_expanded(rest, origin) {
            Some(t) => Some(head + origin + t),
            None => None,
        },
{
    reveal_strlit("${ORIGIN}");
    reveal_strlit("$ORIGIN");
    reveal_strlit("{ORIGIN}");
    reveal_strlit("ORIGIN");
    let p = head.len() as int;
    assert forall|i: int| 0 <= i < p implies head[i] != '$' by {
        assert(head.contains(head[i]));
    }
    let a = head + "${ORIGIN}"@ + rest;
    lemma_position_is(a, '$', p);
    let after = a.skip(p + 1);
    assert(after.subrange(0, 8) =~= "{ORIGIN}"@);
    assert(after.skip(8) =~= rest);
    assert(a.take(p) =~= head);
    assert(origin_variable(after) == Some(8int));
    let b = head + "$ORIGIN"@ + rest;
    lemma_position_is(b, '$', p);
    let tail = b.skip(p + 1);
    assert(tail.subrange(0, 6) =~= "ORIGIN"@);
    assert(tail[0] == 'O');
    assert(tail.skip(6) =~= rest);
    assert(b.take(p) =~= head);
    if !(rest.len() > 0 && goes_on(rest[0])) {
        assert(tail.len() > 6 ==> tail[6] == rest[0]);
        assert(!crate::text::has_prefix(tail, "{ORIGIN}"@)) by {
            if crate::text::has_prefix(tail, "{ORIGIN}"@) {
                assert(tail.subrange(0, 8)[0] == '{');
            }
        }
        assert(origin_variable(tail) == Some(6int));
    }
}

/// An entry with any other variable, such as `$LIB` or `$ORIGINAL`, has no meaning.
pub proof fn law_other_variables_have_no_meaning(
    head: Seq<char>,
    tail: Seq<char>,
    origin: Seq<char>,
)
    requires
        !head.contains('$'),
        !names_origin(tail),
    ensures
        origin_expanded(head.push('$') + tail, origin) is None,
{
    reveal_strlit("{ORIGIN}");
    reveal_strlit("ORIGIN");
    let p = head.len() as int;
    assert forall|i: int| 0 <= i < p implies head[i] != '$' by {
        assert(head.contains(head[i]));
    }
    let a = head.push('$') + tail;
    lemma_position_is(a, '$', p);
    assert(a.skip(p + 1) =~= tail);
    assert(tail.len() >= 8 ==> tail.take(8) =~= tail.subrange(0, 8));
    assert(tail.len() >= 6 ==> tail.take(6) =~= tail.subrange(0, 6));
}

/// The paths that may hold a dependency: for a plain name one below each directory
/// of the search, in order, with one slash between the two; a name with a slash is a
/// path, relative to the root unless it starts with the slash.
pub proof fn law_candidates_follow_the_directories(
    root: Seq<char>,
    loaded: Seq<LoadedModel>,
    k: int,
    name: Seq<char>,
    i: int,
)
    ensures
        name.contains('/') && name[0] == '/' ==> candidates(root, loaded, k, name) == seq![name],
        name.contains('/') && name[0] != '/' && root.len() > 0 && root.last() != '/' ==> candidates(
            root,
            loaded,
            k,
            name,
        ) == seq![root.push('/') + name],
        !name.contains('/') ==> candidates(root, loaded, k, name).len() == search_dirs(
            loaded,
            k,
        ).len(),
        !name.contains('/') && 0 <= i < search_dirs(loaded, k).len() && search_dirs(
            loaded,
            k,
        )[i].len() > 0 && search_dirs(loaded, k)[i].last() != '/' ==> candidates(
            root,
            loaded,
            k,
            name,
        )[i] == search_dirs(loaded, k)[i].push('/') + name,
        !name.contains('/') && 0 <= i < search_dirs(loaded, k).len() && search_dirs(
            loaded,
            k,
        )[i].len() > 0 && search_dirs(loaded, k)[i].last() == '/' ==> candidates(
            root,
            loaded,
            k,
            name,
        )[i] == search_dirs(loaded, k)[i] + name,
{
    if !name.contains('/') && name.len() > 0 {
        assert(name.contains(name[0]));
    }
}

} // verus!
