//! Laws of single steps: what opening a file does, and how one dependency is resolved.

use crate::elf::error_text;
use crate::elf_model::{elf_model, ElfModel};
use crate::loader::{
    candidates, find_name, find_path, opened, search_from, sim_inv, sim_start, sim_step, Answers,
    BundleModel, Contents, LinkModel, LoadedModel, ObjectModel, SimModel, StepModel,
};
use crate::paths::{parent, relative_to};
use crate::scan::{with_file, CollectionModel};
use vstd::prelude::*;

verus! {

/// Bytes that start like an ELF file.
pub open spec fn starts_like_elf(data: Seq<u8>) -> bool {
    data.len() >= 4 && data[0] == 127 && data[1] == 69 && data[2] == 76 && data[3] == 70
}

/// Opening a new file inside the root: a file that parses becomes an object under its
/// canonical path, with its path seen from the root; one that starts like an ELF file
/// and does not parse, and one that cannot be read, is an error under that path; and
/// anything else is passed over in silence.
pub proof fn law_a_new_file_is_what_it_holds(
    b: BundleModel,
    path: Seq<char>,
    canonical: Seq<char>,
    rel: Seq<char>,
    contents: Contents,
)
    requires
        relative_to(b.root, canonical) == Some(rel),
        !b.cache.contains_key(canonical),
    ensures
        contents matches Contents::Data(data) ==> {
            &&& elf_model(data@) matches Ok(elf) ==> {
                let o = Some(ObjectModel { path: canonical, rel, elf });
                &&& opened(b, path, Some(canonical), contents).1 == o
                &&& opened(b, path, Some(canonical), contents).0.cache == b.cache.insert(
                    canonical,
                    o,
                )
                &&& opened(b, path, Some(canonical), contents).0.errors == b.errors
            }
            &&& starts_like_elf(data@) && elf_model(data@) is Err ==> opened(
                b,
                path,
                Some(canonical),
                contents,
            ).1 is None && opened(b, path, Some(canonical), contents).0.errors == b.errors.insert(
                rel,
                error_text(elf_model(data@)->Err_0),
            )
            &&& !starts_like_elf(data@) ==> opened(b, path, Some(canonical), contents).1 is None
                && opened(b, path, Some(canonical), contents).0.errors == b.errors
        },
        contents is NotAFile ==> opened(b, path, Some(canonical), contents).1 is None && opened(
            b,
            path,
            Some(canonical),
            contents,
        ).0.errors == b.errors,
        contents matches Contents::Unreadable(message) ==> opened(
            b,
            path,
            Some(canonical),
            contents,
        ).1 is None && opened(b, path, Some(canonical), contents).0.errors == b.errors.insert(
            rel,
            message@,
        ),
        contents is NotAFile ==> opened(b, path, Some(canonical), contents).1 is None && opened(
            b,
            path,
            Some(canonical),
            contents,
        ).0.errors == b.errors,
        opened(b, path, Some(canonical), contents).0.cache.contains_key(canonical),
        opened(b, path, Some(canonical), contents).0.cache[canonical] == opened(
            b,
            path,
            Some(canonical),
            contents,
        ).1,
        opened(b, path, Some(canonical), contents).0.answers == b.answers.insert(
            path,
            opened(b, path, Some(canonical), contents).1,
        ),
{
}

/// A path that leads nowhere or out of the root holds nothing, and a file that was
/// opened before holds what it held; in either case the files and the errors that are
/// known stay as they are, whatever the contents are said to be.
pub proof fn law_known_files_are_not_read_again(
    b: BundleModel,
    path: Seq<char>,
    canonical: Option<Seq<char>>,
    contents: Contents,
)
    requires
        canonical matches Some(c) ==> relative_to(b.root, c) is None || b.cache.contains_key(c),
    ensures
        opened(b, path, canonical, contents).1 == match canonical {
            Some(c) => if relative_to(b.root, c) is Some {
                b.cache[c]
            } else {
                None
            },
            None => None,
        },
        opened(b, path, canonical, contents).0.cache == b.cache,
        opened(b, path, canonical, contents).0.errors == b.errors,
        opened(b, path, canonical, contents).0.root == b.root,
        opened(b, path, canonical, contents).0.answers == b.answers.insert(
            path,
            opened(b, path, canonical, contents).1,
        ),
{
}

/// It is known that a path holds an object for the class, byte order and machine of a
/// target.
pub open spec fn serves(answers: Answers, path: Seq<char>, target: ElfModel) -> bool {
    &&& answers.contains_key(path)
    &&& answers[path] is Some
    &&& answers[path]->Some_0.elf.class == target.class
    &&& answers[path]->Some_0.elf.endian == target.endian
    &&& answers[path]->Some_0.elf.machine == target.machine
    &&& parent(path) is Some
}

/// It is known of the paths before the `i`th that none serves.
pub open spec fn none_serves(
    answers: Answers,
    paths: Seq<Seq<char>>,
    target: ElfModel,
    i: int,
) -> bool {
    forall|m: int|
        0 <= m < i ==> answers.contains_key(#[trigger] paths[m]) && !serves(
            answers,
            paths[m],
            target,
        )
}

/// A simulation that has a dependency to resolve.
pub open spec fn is_resolving(st: SimModel) -> bool {
    &&& sim_inv(st)
    &&& st.current < st.loaded.len()
    &&& st.links.len() < st.loaded[st.current].object.elf.needed.len()
}

/// The name that is resolved next.
pub open spec fn wanted(st: SimModel) -> Seq<char> {
    st.loaded[st.current].object.elf.needed[st.links.len() as int]
}

/// Some loaded object goes by a name.
pub open spec fn is_known(st: SimModel, name: Seq<char>) -> bool {
    exists|j: int| 0 <= j < st.loaded.len() && (#[trigger] st.loaded[j]).names.contains(name)
}

/// The simulation goes on with a link for the wanted name.
pub open spec fn is_linked(
    step: StepModel,
    st: SimModel,
    loaded: Seq<LoadedModel>,
    resolved: Option<int>,
) -> bool {
    step matches StepModel::Next(next) && next.loaded == loaded && next.current == st.current
        && next.links == st.links.push(LinkModel { name: wanted(st), resolved })
}

proof fn lemma_unknown(loaded: Seq<LoadedModel>, name: Seq<char>, i: int)
    requires
        0 <= i,
        forall|j: int| i <= j < loaded.len() ==> !(#[trigger] loaded[j]).names.contains(name),
    ensures
        find_name(loaded, name, i) is None,
    decreases loaded.len() - i,
{
    if i < loaded.len() {
        lemma_unknown(loaded, name, i + 1);
    }
}

proof fn lemma_search_to(
    answers: Answers,
    paths: Seq<Seq<char>>,
    target: ElfModel,
    i: int,
    k: int,
)
    requires
        0 <= i <= k <= paths.len(),
        none_serves(answers, paths, target, k),
    ensures
        search_from(answers, paths, target, i) == search_from(answers, paths, target, k),
    decreases k - i,
{
    if i < k {
        assert(answers.contains_key(paths[i]) && !serves(answers, paths[i], target));
        lemma_search_to(answers, paths, target, i + 1, k);
    }
}

proof fn lemma_path_at(loaded: Seq<LoadedModel>, path: Seq<char>, i: int, j: int)
    requires
        0 <= i <= j < loaded.len(),
        loaded[j].object.path == path,
        forall|m: int| i <= m < j ==> (#[trigger] loaded[m]).object.path != path,
    ensures
        find_path(loaded, path, i) == Some(j),
    decreases j - i,
{
    if i < j {
        lemma_path_at(loaded, path, i + 1, j);
    }
}

proof fn lemma_no_path(loaded: Seq<LoadedModel>, path: Seq<char>, i: int)
    requires
        0 <= i,
        forall|m: int| i <= m < loaded.len() ==> (#[trigger] loaded[m]).object.path != path,
    ensures
        find_path(loaded, path, i) is None,
    decreases loaded.len() - i,
{
    if i < loaded.len() {
        lemma_no_path(loaded, path, i + 1);
    }
}

/// A name that no loaded object goes by is searched: the first candidate that serves
/// is taken. A file that is not loaded yet joins the load list behind all others,
/// loaded by the object that wanted it, found in the directory of the candidate, and
/// going by its `DT_SONAME` and by the wanted name.
pub proof fn law_a_new_object_joins_the_list(
    answers: Answers,
    root: Seq<char>,
    st: SimModel,
    i: int,
)
    requires
        is_resolving(st),
        !is_known(st, wanted(st)),
        0 <= i < candidates(root, st.loaded, st.current, wanted(st)).len(),
        none_serves(
            answers,
            candidates(root, st.loaded, st.current, wanted(st)),
            st.loaded[st.current].object.elf,
            i,
        ),
        serves(
            answers,
            candidates(root, st.loaded, st.current, wanted(st))[i],
            st.loaded[st.current].object.elf,
        ),
        forall|j: int|
            0 <= j < st.loaded.len() ==> (#[trigger] st.loaded[j]).object.path
                != answers[candidates(
                root,
                st.loaded,
                st.current,
                wanted(st),
            )[i]]->Some_0.path,
    ensures
        ({
            let path = candidates(root, st.loaded, st.current, wanted(st))[i];
            let o = answers[path]->Some_0;
            is_linked(
                sim_step(answers, root, st),
                st,
                st.loaded.push(
                    LoadedModel {
                        object: o,
                        loader: Some(st.current),
                        needed: Seq::empty(),
                        origin: parent(path)->Some_0,
                        names: match o.elf.soname {
                            Some(soname) => seq![soname, wanted(st)],
                            None => seq![wanted(st)],
                        },
                    },
                ),
                Some(st.loaded.len() as int),
            )
        }),
{
    let name = wanted(st);
    let paths = candidates(root, st.loaded, st.current, name);
    let target = st.loaded[st.current].object.elf;
    let o = answers[paths[i]]->Some_0;
    lemma_unknown(st.loaded, name, 0);
    lemma_search_to(answers, paths, target, 0, i);
    lemma_no_path(st.loaded, o.path, 0);
    assert(crate::loader::own_names(o.elf).push(name) =~= match o.elf.soname {
        Some(soname) => seq![soname, name],
        None => seq![name],
    });
}

/// A search that ends at a file which is loaded already gives that object another
/// name and loads nothing.
pub proof fn law_a_loaded_file_gets_another_name(
    answers: Answers,
    root: Seq<char>,
    st: SimModel,
    i: int,
    j: int,
)
    requires
        is_resolving(st),
        !is_known(st, wanted(st)),
        0 <= i < candidates(root, st.loaded, st.current, wanted(st)).len(),
        none_serves(
            answers,
            candidates(root, st.loaded, st.current, wanted(st)),
            st.loaded[st.current].object.elf,
            i,
        ),
        serves(
            answers,
            candidates(root, st.loaded, st.current, wanted(st))[i],
            st.loaded[st.current].object.elf,
        ),
        0 <= j < st.loaded.len(),
        st.loaded[j].object.path == answers[candidates(
            root,
            st.loaded,
            st.current,
            wanted(st),
        )[i]]->Some_0.path,
    ensures
        is_linked(
            sim_step(answers, root, st),
            st,
            st.loaded.update(
                j,
                LoadedModel { names: st.loaded[j].names.push(wanted(st)), ..st.loaded[j] },
            ),
            Some(j),
        ),
{
    let name = wanted(st);
    let paths = candidates(root, st.loaded, st.current, name);
    let target = st.loaded[st.current].object.elf;
    lemma_unknown(st.loaded, name, 0);
    lemma_search_to(answers, paths, target, 0, i);
    assert forall|m: int| 0 <= m < j implies (#[trigger] st.loaded[m]).object.path
        != st.loaded[j].object.path by {}
    lemma_path_at(st.loaded, st.loaded[j].object.path, 0, j);
}

/// A name that no candidate serves is left to the system. A candidate of which it is
/// not known yet what it holds is asked for, before any later one is looked at.
pub proof fn law_searches_end_or_ask(answers: Answers, root: Seq<char>, st: SimModel, i: int)
    requires
        is_resolving(st),
        !is_known(st, wanted(st)),
        0 <= i <= candidates(root, st.loaded, st.current, wanted(st)).len(),
        none_serves(
            answers,
            candidates(root, st.loaded, st.current, wanted(st)),
            st.loaded[st.current].object.elf,
            i,
        ),
    ensures
        i == candidates(root, st.loaded, st.current, wanted(st)).len() ==> is_linked(
            sim_step(answers, root, st),
            st,
            st.loaded,
            None,
        ),
        i < candidates(root, st.loaded, st.current, wanted(st)).len() && !answers.contains_key(
            candidates(root, st.loaded, st.current, wanted(st))[i],
        ) ==> sim_step(answers, root, st) == StepModel::Ask(
            candidates(root, st.loaded, st.current, wanted(st))[i],
        ),
{
    let name = wanted(st);
    let paths = candidates(root, st.loaded, st.current, name);
    lemma_unknown(st.loaded, name, 0);
    lemma_search_to(answers, paths, st.loaded[st.current].object.elf, 0, i);
}

/// A name that a loaded object goes by, its `DT_SONAME` or a name that found it
/// before, is the first such object; nothing is searched or loaded.
pub proof fn law_known_names_are_reused(answers: Answers, root: Seq<char>, st: SimModel, j: int)
    requires
        is_resolving(st),
        0 <= j < st.loaded.len(),
        st.loaded[j].names.contains(wanted(st)),
        forall|m: int| 0 <= m < j ==> !(#[trigger] st.loaded[m]).names.contains(wanted(st)),
    ensures
        is_linked(sim_step(answers, root, st), st, st.loaded, Some(j)),
{
    lemma_name_at(st.loaded, wanted(st), 0, j);
}

proof fn lemma_name_at(loaded: Seq<LoadedModel>, name: Seq<char>, i: int, j: int)
    requires
        0 <= i <= j < loaded.len(),
        loaded[j].names.contains(name),
        forall|m: int| i <= m < j ==> !(#[trigger] loaded[m]).names.contains(name),
    ensures
        find_name(loaded, name, i) == Some(j),
    decreases j - i,
{
    if i < j {
        lemma_name_at(loaded, name, i + 1, j);
    }
}

/// A simulation starts with the entry alone, found in its own directory and going by
/// its `DT_SONAME`. An object whose dependencies are all resolved keeps its links, and
/// the next object of the list follows; behind the last the simulation is done.
pub proof fn law_objects_are_resolved_in_turn(
    answers: Answers,
    root: Seq<char>,
    entry: ObjectModel,
    st: SimModel,
)
    requires
        sim_inv(st),
    ensures
        sim_start(entry).loaded == seq![
            LoadedModel {
                object: entry,
                loader: None,
                needed: Seq::empty(),
                origin: match parent(entry.path) {
                    Some(dir) => dir,
                    None => Seq::empty(),
                },
                names: match entry.elf.soname {
                    Some(soname) => seq![soname],
                    None => Seq::empty(),
                },
            },
        ],
        sim_start(entry).current == 0,
        sim_start(entry).links.len() == 0,
        st.current == st.loaded.len() ==> sim_step(answers, root, st) is Done,
        st.current < st.loaded.len() && st.links.len()
            == st.loaded[st.current].object.elf.needed.len() ==> (sim_step(answers, root, st)
            matches StepModel::Next(next) && next.current == st.current + 1 && next.links.len()
            == 0 && next.loaded == st.loaded.update(
            st.current,
            LoadedModel { needed: st.links, ..st.loaded[st.current] },
        )),
{
}

/// A file of the scanned tree that holds an object adds that object behind those found
/// before; any other file adds none. Either way the bundle is the one that opening the
/// file leaves.
pub proof fn law_objects_are_collected_in_turn(
    c: CollectionModel,
    path: Seq<char>,
    canonical: Option<Seq<char>>,
    contents: Contents,
)
    ensures
        with_file(c, path, canonical, contents).bundle == opened(
            c.bundle,
            path,
            canonical,
            contents,
        ).0,
        with_file(c, path, canonical, contents).objects.take(c.objects.len() as int) == c.objects,
        match opened(c.bundle, path, canonical, contents).1 {
            Some(o) => with_file(c, path, canonical, contents).objects.len() == c.objects.len() + 1
                && with_file(c, path, canonical, contents).objects.last() == o,
            None => with_file(c, path, canonical, contents).objects == c.objects,
        },
{
    let objects = with_file(c, path, canonical, contents).objects;
    assert(objects.take(c.objects.len() as int) =~= c.objects);
}

} // verus!
