//! Laws of dependency resolution.

use crate::elf_model::ElfModel;
use crate::loader::{
    answered, candidates, find_name, find_path, found_step, is_answer, is_load_list,
    lemma_find_path, lemma_load_bound, lemma_step_inv, loadable, next_name, opened, own_rpath,
    rpath_dirs, same_target, search_dirs, search_from, sim_found, sim_inv, sim_start, sim_step,
    sim_steps, Answers, BundleModel, Contents, LinkModel, LoadedModel, ObjectModel, SearchModel,
    SimModel, StepModel,
};
use crate::paths::{is_inside, parent, relative_to};
use vstd::prelude::*;

verus! {

proof fn lemma_search_grows(
    a: Answers,
    b: Answers,
    paths: Seq<Seq<char>>,
    target: ElfModel,
    i: int,
)
    requires
        0 <= i,
        a.submap_of(b),
        !(search_from(a, paths, target, i) is Ask),
    ensures
        search_from(b, paths, target, i) == search_from(a, paths, target, i),
    decreases paths.len() - i,
{
    if i < paths.len() {
        assert(a.contains_key(paths[i]));
        assert(b.contains_key(paths[i]) && b[paths[i]] == a[paths[i]]);
        match (a[paths[i]], parent(paths[i])) {
            (Some(o), Some(origin)) if same_target(o.elf, target) => {},
            _ => {
                lemma_search_grows(a, b, paths, target, i + 1);
            },
        }
    }
}

/// A step that could be made is made the same way when more is known.
pub proof fn law_more_answers_keep_steps(a: Answers, b: Answers, root: Seq<char>, st: SimModel)
    requires
        a.submap_of(b),
        !(sim_step(a, root, st) is Ask),
    ensures
        sim_step(b, root, st) == sim_step(a, root, st),
{
    if st.current < st.loaded.len() && st.links.len()
        < st.loaded[st.current].object.elf.needed.len() && find_name(
        st.loaded,
        next_name(st),
        0,
    ) is None {
        lemma_search_grows(
            a,
            b,
            candidates(root, st.loaded, st.current, next_name(st)),
            st.loaded[st.current].object.elf,
            0,
        );
    }
}

/// A simulation may be stopped and taken up again when more is known: every state
/// it reached is still on its way.
pub proof fn law_simulations_resume(
    a: Answers,
    b: Answers,
    root: Seq<char>,
    st: SimModel,
    n: nat,
) -> (m: nat)
    requires
        a.submap_of(b),
    ensures
        sim_steps(b, root, st, m) == sim_steps(a, root, st, n),
    decreases n,
{
    if n == 0 {
        0
    } else {
        let m = law_simulations_resume(a, b, root, st, (n - 1) as nat);
        let before = sim_steps(a, root, st, (n - 1) as nat);
        if sim_step(a, root, before) is Next {
            law_more_answers_keep_steps(a, b, root, before);
            m + 1
        } else {
            m
        }
    }
}

/// Steps of a simulation follow each other.
pub proof fn lemma_steps_add(answers: Answers, root: Seq<char>, st: SimModel, m: nat, n: nat)
    ensures
        sim_steps(answers, root, sim_steps(answers, root, st, m), n) == sim_steps(
            answers,
            root,
            st,
            m + n,
        ),
    decreases n,
{
    if n > 0 {
        lemma_steps_add(answers, root, st, m, (n - 1) as nat);
        assert((m + n - 1) as nat == m + (n - 1) as nat);
    }
}

proof fn lemma_done_stays(answers: Answers, root: Seq<char>, st: SimModel, m: nat, n: nat)
    requires
        m <= n,
        sim_step(answers, root, sim_steps(answers, root, st, m)) == StepModel::Done,
    ensures
        sim_steps(answers, root, st, n) == sim_steps(answers, root, st, m),
    decreases n,
{
    if m < n {
        lemma_done_stays(answers, root, st, m, (n - 1) as nat);
    }
}

/// The load list of an object is determined by what the paths hold.
pub proof fn law_load_lists_are_unique(
    answers: Answers,
    root: Seq<char>,
    entry: ObjectModel,
    a: Seq<LoadedModel>,
    b: Seq<LoadedModel>,
)
    requires
        is_load_list(answers, root, entry, a),
        is_load_list(answers, root, entry, b),
    ensures
        a == b,
{
    let st = sim_start(entry);
    let m = choose|n: nat|
        (#[trigger] sim_steps(answers, root, st, n)).loaded == a && sim_step(
            answers,
            root,
            sim_steps(answers, root, st, n),
        ) == StepModel::Done;
    let n = choose|n: nat|
        (#[trigger] sim_steps(answers, root, st, n)).loaded == b && sim_step(
            answers,
            root,
            sim_steps(answers, root, st, n),
        ) == StepModel::Done;
    if m <= n {
        lemma_done_stays(answers, root, st, m, n);
    } else {
        lemma_done_stays(answers, root, st, n, m);
    }
}

/// A load list stays the load list when more is known.
pub proof fn law_load_lists_stay(
    a: Answers,
    b: Answers,
    root: Seq<char>,
    entry: ObjectModel,
    list: Seq<LoadedModel>,
)
    requires
        a.submap_of(b),
        is_load_list(a, root, entry, list),
    ensures
        is_load_list(b, root, entry, list),
{
    let st = sim_start(entry);
    let n = choose|n: nat|
        (#[trigger] sim_steps(a, root, st, n)).loaded == list && sim_step(
            a,
            root,
            sim_steps(a, root, st, n),
        ) == StepModel::Done;
    let m = law_simulations_resume(a, b, root, st, n);
    law_more_answers_keep_steps(a, b, root, sim_steps(a, root, st, n));
    assert(sim_steps(b, root, st, m).loaded == list);
}

/// The links that an object has are its dependencies, in order; what a link leads
/// to goes by the link's name.
pub open spec fn links_fit(
    loaded: Seq<LoadedModel>,
    needed: Seq<Seq<char>>,
    links: Seq<LinkModel>,
) -> bool {
    links.len() <= needed.len() && forall|k: int|
        0 <= k < links.len() ==> (#[trigger] links[k]).name == needed[k] && (
        links[k].resolved matches Some(j) ==> 0 <= j < loaded.len() && loaded[j].names.contains(
            needed[k],
        ))
}

/// The `k`th object was loaded by an object that was built for the same target.
pub open spec fn loaded_rightly(loaded: Seq<LoadedModel>, k: int) -> bool {
    loaded[k].loader matches Some(j) && same_target(loaded[k].object.elf, loaded[j].object.elf)
}

/// The `k`th object has a link for each of its dependencies.
pub open spec fn resolved_rightly(loaded: Seq<LoadedModel>, k: int) -> bool {
    links_fit(loaded, loaded[k].object.elf.needed, loaded[k].needed) && loaded[k].needed.len()
        == loaded[k].object.elf.needed.len()
}

/// What holds on the way to a load list.
spec fn progress_inv(entry: ObjectModel, st: SimModel) -> bool {
    &&& sim_inv(st)
    &&& st.loaded[0].object == entry
    &&& st.loaded[0].loader is None
    &&& forall|k: int| 0 < k < st.loaded.len() ==> #[trigger] loaded_rightly(st.loaded, k)
    &&& forall|k: int| 0 <= k < st.current ==> #[trigger] resolved_rightly(st.loaded, k)
    &&& st.current < st.loaded.len() ==> links_fit(
        st.loaded,
        st.loaded[st.current].object.elf.needed,
        st.links,
    )
}

/// Later load lists keep every name.
proof fn lemma_links_keep(
    old_list: Seq<LoadedModel>,
    new_list: Seq<LoadedModel>,
    needed: Seq<Seq<char>>,
    links: Seq<LinkModel>,
)
    requires
        links_fit(old_list, needed, links),
        old_list.len() <= new_list.len(),
        forall|k: int, name: Seq<char>|
            0 <= k < old_list.len() && #[trigger] old_list[k].names.contains(name)
                ==> new_list[k].names.contains(name),
    ensures
        links_fit(new_list, needed, links),
{
    assert forall|k: int| 0 <= k < links.len() implies (#[trigger] links[k]).name == needed[k] && (
    links[k].resolved matches Some(j) ==> 0 <= j < new_list.len() && new_list[j].names.contains(
        needed[k],
    )) by {
        if let Some(j) = links[k].resolved {
            assert(old_list[j].names.contains(needed[k]));
        }
    }
}

proof fn lemma_find_name(loaded: Seq<LoadedModel>, name: Seq<char>, i: int)
    requires
        0 <= i,
    ensures
        find_name(loaded, name, i) matches Some(j) ==> i <= j < loaded.len()
            && loaded[j].names.contains(name),
    decreases loaded.len() - i,
{
    if i < loaded.len() && !loaded[i].names.contains(name) {
        lemma_find_name(loaded, name, i + 1);
    }
}

proof fn lemma_push_contains(s: Seq<Seq<char>>, x: Seq<char>, y: Seq<char>)
    requires
        s.contains(y) || x == y,
    ensures
        s.push(x).contains(y),
{
    if x == y {
        assert(s.push(x)[s.len() as int] == y);
    } else {
        let i = choose|i: int| 0 <= i < s.len() && s[i] == y;
        assert(s.push(x)[i] == y);
    }
}

/// Where the search of a simulation succeeds, and what it finds there.
pub proof fn law_search_finds_the_first_fit(
    answers: Answers,
    paths: Seq<Seq<char>>,
    target: ElfModel,
    i: int,
)
    requires
        0 <= i <= paths.len(),
    ensures
        match search_from(answers, paths, target, i) {
            SearchModel::Found(o, origin) => exists|k: int|
                i <= k < paths.len() && answers.contains_key(#[trigger] paths[k])
                    && answers[paths[k]] == Some(o) && parent(paths[k]) == Some(origin)
                    && same_target(o.elf, target) && no_fit(answers, paths, target, i, k),
            SearchModel::Missing => no_fit(answers, paths, target, i, paths.len() as int),
            SearchModel::Ask(path) => exists|k: int|
                i <= k < paths.len() && #[trigger] paths[k] == path && !answers.contains_key(path)
                    && no_fit(answers, paths, target, i, k),
        },
    decreases paths.len() - i,
{
    if i < paths.len() {
        if !answers.contains_key(paths[i]) {
            assert(no_fit(answers, paths, target, i, i));
            assert(paths[i] == paths[i]);
        } else {
            match (answers[paths[i]], parent(paths[i])) {
                (Some(o), Some(origin)) if same_target(o.elf, target) => {
                    assert(no_fit(answers, paths, target, i, i));
                    assert(answers.contains_key(paths[i]));
                },
                _ => {
                    law_search_finds_the_first_fit(answers, paths, target, i + 1);
                    match search_from(answers, paths, target, i + 1) {
                        SearchModel::Found(o, origin) => {
                            let k = choose|k: int|
                                i + 1 <= k < paths.len() && answers.contains_key(
                                    #[trigger] paths[k],
                                ) && answers[paths[k]] == Some(o) && parent(paths[k]) == Some(
                                    origin,
                                ) && same_target(o.elf, target) && no_fit(
                                    answers,
                                    paths,
                                    target,
                                    i + 1,
                                    k,
                                );
                            assert(no_fit(answers, paths, target, i, k));
                        },
                        SearchModel::Missing => {},
                        SearchModel::Ask(path) => {
                            let k = choose|k: int|
                                i + 1 <= k < paths.len() && #[trigger] paths[k] == path
                                    && !answers.contains_key(path) && no_fit(
                                    answers,
                                    paths,
                                    target,
                                    i + 1,
                                    k,
                                );
                            assert(no_fit(answers, paths, target, i, k));
                        },
                    }
                },
            }
        }
    }
}

/// It is known of the paths from `i` up to `k` that none holds a fitting object.
pub open spec fn no_fit(
    answers: Answers,
    paths: Seq<Seq<char>>,
    target: ElfModel,
    i: int,
    k: int,
) -> bool {
    forall|m: int|
        i <= m < k ==> answers.contains_key(#[trigger] paths[m]) && !(
        answers[paths[m]] matches Some(o) && same_target(o.elf, target) && parent(
            paths[m],
        ) is Some)
}

/// A load list that has grown: objects stay as they are but for their names, which
/// may become more, and one object may have joined on behalf of the `current`th.
spec fn grown(a: Seq<LoadedModel>, b: Seq<LoadedModel>, current: int) -> bool {
    &&& a.len() <= b.len() <= a.len() + 1
    &&& forall|k: int|
        0 <= k < a.len() ==> (#[trigger] b[k]).object == a[k].object && b[k].loader == a[k].loader
            && b[k].needed == a[k].needed
    &&& forall|k: int, x: Seq<char>|
        0 <= k < a.len() && #[trigger] a[k].names.contains(x) ==> b[k].names.contains(x)
    &&& b.len() > a.len() ==> b.last().loader == Some(current) && same_target(
        b.last().object.elf,
        a[current].object.elf,
    )
}

proof fn lemma_found_grows(st: SimModel, o: ObjectModel, origin: Seq<char>)
    requires
        sim_inv(st),
        st.current < st.loaded.len(),
        same_target(o.elf, st.loaded[st.current].object.elf),
    ensures
        grown(st.loaded, found_step(st, o, origin).loaded, st.current),
        found_step(st, o, origin).links.last().resolved matches Some(j) && 0 <= j < found_step(
            st,
            o,
            origin,
        ).loaded.len() && found_step(st, o, origin).loaded[j].names.contains(next_name(st)),
{
    let name = next_name(st);
    let next = found_step(st, o, origin);
    lemma_find_path(st.loaded, o.path, 0);
    match find_path(st.loaded, o.path, 0) {
        Some(j) => {
            assert forall|k: int, x: Seq<char>|
                0 <= k < st.loaded.len() && #[trigger] st.loaded[k].names.contains(
                    x,
                ) implies next.loaded[k].names.contains(x) by {
                if k == j {
                    lemma_push_contains(st.loaded[k].names, name, x);
                }
            }
            lemma_push_contains(st.loaded[j].names, name, name);
        },
        None => {
            let new = next.loaded.last();
            assert(new.names[new.names.len() - 1] == name);
        },
    }
}

/// What resolving a dependency does to a simulation.
proof fn lemma_link_step(answers: Answers, root: Seq<char>, st: SimModel)
    requires
        sim_inv(st),
        st.current < st.loaded.len(),
        st.links.len() < st.loaded[st.current].object.elf.needed.len(),
        sim_step(answers, root, st) is Next,
    ensures
        sim_step(answers, root, st) matches StepModel::Next(next) && next.current == st.current
            && grown(st.loaded, next.loaded, st.current) && next.links.len() == st.links.len() + 1
            && next.links.drop_last() == st.links && next.links.last().name == next_name(st) && (
        next.links.last().resolved matches Some(j) ==> 0 <= j < next.loaded.len()
            && next.loaded[j].names.contains(next_name(st))),
{
    let name = next_name(st);
    let next = sim_step(answers, root, st)->Next_0;
    assert(next.links.drop_last() =~= st.links);
    lemma_find_name(st.loaded, name, 0);
    if find_name(st.loaded, name, 0) is None {
        let paths = candidates(root, st.loaded, st.current, name);
        let target = st.loaded[st.current].object.elf;
        law_search_finds_the_first_fit(answers, paths, target, 0);
        if let SearchModel::Found(o, origin) = search_from(answers, paths, target, 0) {
            lemma_found_grows(st, o, origin);
        }
    }
}

proof fn lemma_grown_progress(
    entry: ObjectModel,
    st: SimModel,
    next: SimModel,
)
    requires
        progress_inv(entry, st),
        sim_inv(next),
        st.current < st.loaded.len(),
        st.links.len() < st.loaded[st.current].object.elf.needed.len(),
        next.current == st.current,
        grown(st.loaded, next.loaded, st.current),
        next.links.len() == st.links.len() + 1,
        next.links.drop_last() == st.links,
        next.links.last().name == next_name(st),
        next.links.last().resolved matches Some(j) ==> 0 <= j < next.loaded.len()
            && next.loaded[j].names.contains(next_name(st)),
    ensures
        progress_inv(entry, next),
{
    let needed = st.loaded[st.current].object.elf.needed;
    assert(next.loaded[0].object == st.loaded[0].object);
    assert forall|k: int| 0 <= k < next.current implies #[trigger] resolved_rightly(
        next.loaded,
        k,
    ) by {
        assert(resolved_rightly(st.loaded, k));
        assert(next.loaded[k].needed == st.loaded[k].needed);
        lemma_links_keep(
            st.loaded,
            next.loaded,
            st.loaded[k].object.elf.needed,
            st.loaded[k].needed,
        );
    }
    lemma_links_keep(st.loaded, next.loaded, needed, st.links);
    assert(next.loaded[st.current].object == st.loaded[st.current].object);
    assert forall|k: int| 0 <= k < next.links.len() implies (#[trigger] next.links[k]).name
        == needed[k] && (next.links[k].resolved matches Some(j) ==> 0 <= j < next.loaded.len()
        && next.loaded[j].names.contains(needed[k])) by {
        if k < st.links.len() {
            assert(next.links.drop_last()[k] == next.links[k]);
        }
    }
    assert forall|k: int| 0 < k < next.loaded.len() implies #[trigger] loaded_rightly(
        next.loaded,
        k,
    ) by {
        if k < st.loaded.len() {
            assert(loaded_rightly(st.loaded, k));
            let j = st.loaded[k].loader->Some_0;
            assert(next.loaded[k].loader == st.loaded[k].loader);
            assert(next.loaded[j].object == st.loaded[j].object);
        }
    }
}

proof fn lemma_finish_progress(
    answers: Answers,
    root: Seq<char>,
    entry: ObjectModel,
    st: SimModel,
)
    requires
        progress_inv(entry, st),
        st.current < st.loaded.len(),
        st.links.len() >= st.loaded[st.current].object.elf.needed.len(),
        sim_inv(sim_step(answers, root, st)->Next_0),
    ensures
        progress_inv(entry, sim_step(answers, root, st)->Next_0),
{
    let next = sim_step(answers, root, st)->Next_0;
    assert forall|k: int| 0 <= k < next.loaded.len() implies (#[trigger] next.loaded[k]).object
        == st.loaded[k].object && next.loaded[k].loader == st.loaded[k].loader
        && next.loaded[k].names == st.loaded[k].names by {}
    assert forall|k: int, x: Seq<char>|
        0 <= k < st.loaded.len() && #[trigger] st.loaded[k].names.contains(
            x,
        ) implies next.loaded[k].names.contains(x) by {
        assert(next.loaded[k].names == st.loaded[k].names);
    }
    assert forall|k: int| 0 <= k < next.current implies #[trigger] resolved_rightly(
        next.loaded,
        k,
    ) by {
        if k < st.current {
            assert(resolved_rightly(st.loaded, k));
            assert(st.loaded[k].needed == next.loaded[k].needed);
        }
        lemma_links_keep(
            st.loaded,
            next.loaded,
            next.loaded[k].object.elf.needed,
            next.loaded[k].needed,
        );
    }
    assert forall|k: int| 0 < k < next.loaded.len() implies #[trigger] loaded_rightly(
        next.loaded,
        k,
    ) by {
        assert(loaded_rightly(st.loaded, k));
        let j = st.loaded[k].loader->Some_0;
        assert(next.loaded[k].loader == st.loaded[k].loader);
        assert(next.loaded[j].object == st.loaded[j].object);
    }
}

/// Every step of a simulation started on `entry` keeps what holds on the way.
proof fn lemma_progress(
    answers: Answers,
    root: Seq<char>,
    entry: ObjectModel,
    n: nat,
)
    ensures
        progress_inv(entry, sim_steps(answers, root, sim_start(entry), n)),
        sim_found(answers, sim_steps(answers, root, sim_start(entry), n)),
    decreases n,
{
    let start = sim_start(entry);
    if n > 0 {
        lemma_progress(answers, root, entry, (n - 1) as nat);
        let st = sim_steps(answers, root, start, (n - 1) as nat);
        if sim_step(answers, root, st) is Next {
            lemma_step_inv(answers, root, st);
            let next = sim_step(answers, root, st)->Next_0;
            if st.links.len() >= st.loaded[st.current].object.elf.needed.len() {
                lemma_finish_progress(answers, root, entry, st);
            } else {
                lemma_link_step(answers, root, st);
                lemma_grown_progress(entry, st, next);
            }
        }
    }
}

/// A load list starts with the object it was made for. No file is in it twice.
/// Every other object was found by searching, on behalf of an earlier object and
/// for the same class, byte order and machine. Every dependency of every object
/// has its link, in order, and a link that leads somewhere leads to an object that
/// goes by that name.
pub proof fn law_load_lists_are_sound(
    answers: Answers,
    root: Seq<char>,
    entry: ObjectModel,
    list: Seq<LoadedModel>,
)
    requires
        is_load_list(answers, root, entry, list),
    ensures
        list.len() > 0,
        list[0].object == entry,
        list[0].loader is None,
        forall|i: int, j: int|
            0 <= i < j < list.len() ==> (#[trigger] list[i]).object.path != (
            #[trigger] list[j]).object.path,
        forall|k: int| 0 < k < list.len() ==> is_answer(answers, (#[trigger] list[k]).object),
        forall|k: int|
            0 < k < list.len() ==> (#[trigger] list[k]).loader is Some && 0
                <= list[k].loader->Some_0 < k,
        forall|k: int| 0 < k < list.len() ==> #[trigger] loaded_rightly(list, k),
        forall|k: int| 0 <= k < list.len() ==> #[trigger] resolved_rightly(list, k),
{
    let n = choose|n: nat|
        (#[trigger] sim_steps(answers, root, sim_start(entry), n)).loaded == list && sim_step(
            answers,
            root,
            sim_steps(answers, root, sim_start(entry), n),
        ) == StepModel::Done;
    lemma_progress(answers, root, entry, n);
    let st = sim_steps(answers, root, sim_start(entry), n);
    assert(st.current >= st.loaded.len()) by {
        if st.current < st.loaded.len() {
            assert(!(sim_step(answers, root, st) is Done));
        }
    }
    assert forall|k: int| 0 < k < list.len() implies (#[trigger] list[k]).loader is Some && 0
        <= list[k].loader->Some_0 < k by {
        assert(loaded_rightly(list, k));
    }
}

/// One of the links leads to the `k`th object.
pub open spec fn leads(links: Seq<LinkModel>, k: int) -> bool {
    exists|m: int| 0 <= m < links.len() && (#[trigger] links[m]).resolved == Some(k)
}

/// The object that loaded the `k`th has a link to it.
pub open spec fn is_needed(list: Seq<LoadedModel>, k: int) -> bool {
    leads(list[list[k].loader->Some_0].needed, k)
}

/// The links that the `j`th object of a simulation has so far.
spec fn links_of(st: SimModel, j: int) -> Seq<LinkModel> {
    if j == st.current {
        st.links
    } else {
        st.loaded[j].needed
    }
}

/// Objects were loaded in turn: each by an object not later than the current one,
/// not before what an earlier object loaded, and over a link.
spec fn in_turn(st: SimModel) -> bool {
    &&& forall|k: int|
        0 < k < st.loaded.len() ==> {
            &&& (#[trigger] st.loaded[k]).loader is Some
            &&& 0 <= st.loaded[k].loader->Some_0 <= st.current
            &&& leads(links_of(st, st.loaded[k].loader->Some_0), k)
        }
    &&& forall|i: int, k: int|
        0 < i < k < st.loaded.len() ==> (#[trigger] st.loaded[i]).loader->Some_0 <= (
        #[trigger] st.loaded[k]).loader->Some_0
}

proof fn lemma_leads_push(links: Seq<LinkModel>, l: LinkModel, k: int)
    requires
        leads(links, k) || l.resolved == Some(k),
    ensures
        leads(links.push(l), k),
{
    if leads(links, k) {
        let m = choose|m: int| 0 <= m < links.len() && (#[trigger] links[m]).resolved == Some(k);
        assert(links.push(l)[m].resolved == Some(k));
    } else {
        assert(links.push(l)[links.len() as int].resolved == Some(k));
    }
}

proof fn lemma_turn_step(answers: Answers, root: Seq<char>, st: SimModel)
    requires
        sim_inv(st),
        in_turn(st),
        sim_step(answers, root, st) is Next,
    ensures
        in_turn(sim_step(answers, root, st)->Next_0),
{
    let next = sim_step(answers, root, st)->Next_0;
    if st.links.len() >= st.loaded[st.current].object.elf.needed.len() {
        assert forall|k: int| 0 < k < next.loaded.len() implies {
            &&& (#[trigger] next.loaded[k]).loader is Some
            &&& 0 <= next.loaded[k].loader->Some_0 <= next.current
            &&& leads(links_of(next, next.loaded[k].loader->Some_0), k)
        } by {
            let j = st.loaded[k].loader->Some_0;
            assert(next.loaded[k].loader == st.loaded[k].loader);
            assert(links_of(next, j) == links_of(st, j));
        }
    } else {
        lemma_link_step(answers, root, st);
        lemma_added_link(answers, root, st);
        assert forall|k: int| 0 < k < next.loaded.len() implies {
            &&& (#[trigger] next.loaded[k]).loader is Some
            &&& 0 <= next.loaded[k].loader->Some_0 <= next.current
            &&& leads(links_of(next, next.loaded[k].loader->Some_0), k)
        } by {
            let added = next.links.last();
            assert(next.links =~= st.links.push(added));
            if k < st.loaded.len() {
                let j = st.loaded[k].loader->Some_0;
                assert(next.loaded[k].loader == st.loaded[k].loader);
                assert(leads(links_of(st, j), k));
                if j == st.current {
                    lemma_leads_push(st.links, added, k);
                } else {
                    assert(next.loaded[j].needed == st.loaded[j].needed);
                }
            } else {
                lemma_leads_push(st.links, added, k);
            }
        }
        assert forall|i: int, k: int| 0 < i < k < next.loaded.len() implies (
        #[trigger] next.loaded[i]).loader->Some_0 <= (#[trigger] next.loaded[k]).loader->Some_0 by {
            assert(next.loaded[i].loader == st.loaded[i].loader);
            if k < st.loaded.len() {
                assert(next.loaded[k].loader == st.loaded[k].loader);
            }
        }
    }
}

/// An object that joins is what the link that was added leads to.
proof fn lemma_added_link(answers: Answers, root: Seq<char>, st: SimModel)
    requires
        sim_inv(st),
        st.current < st.loaded.len(),
        st.links.len() < st.loaded[st.current].object.elf.needed.len(),
        sim_step(answers, root, st) is Next,
    ensures
        ({
            let next = sim_step(answers, root, st)->Next_0;
            next.loaded.len() > st.loaded.len() ==> next.links.last().resolved == Some(
                st.loaded.len() as int,
            )
        }),
{
    let paths = candidates(root, st.loaded, st.current, next_name(st));
    let target = st.loaded[st.current].object.elf;
    if let SearchModel::Found(o, _) = search_from(answers, paths, target, 0) {
        lemma_find_path(st.loaded, o.path, 0);
    }
}

/// Objects load breadth-first, the order ld.so maps dependencies in: what an
/// object loads comes before what a later object loads. Every object but the first
/// was loaded because its loader needs it.
pub proof fn law_load_lists_are_breadth_first(
    answers: Answers,
    root: Seq<char>,
    entry: ObjectModel,
    list: Seq<LoadedModel>,
)
    requires
        is_load_list(answers, root, entry, list),
    ensures
        forall|i: int, k: int|
            0 < i < k < list.len() ==> (#[trigger] list[i]).loader->Some_0 <= (
            #[trigger] list[k]).loader->Some_0,
        forall|k: int| 0 < k < list.len() ==> #[trigger] is_needed(list, k),
{
    let n = choose|n: nat|
        (#[trigger] sim_steps(answers, root, sim_start(entry), n)).loaded == list && sim_step(
            answers,
            root,
            sim_steps(answers, root, sim_start(entry), n),
        ) == StepModel::Done;
    lemma_in_turn(answers, root, entry, n);
    let st = sim_steps(answers, root, sim_start(entry), n);
    assert(st.current >= st.loaded.len()) by {
        if st.current < st.loaded.len() {
            assert(!(sim_step(answers, root, st) is Done));
        }
    }
    assert forall|k: int| 0 < k < list.len() implies #[trigger] is_needed(list, k) by {
        let j = list[k].loader->Some_0;
        assert(links_of(st, j) == list[j].needed);
    }
}

proof fn lemma_in_turn(answers: Answers, root: Seq<char>, entry: ObjectModel, n: nat)
    ensures
        sim_inv(sim_steps(answers, root, sim_start(entry), n)),
        in_turn(sim_steps(answers, root, sim_start(entry), n)),
    decreases n,
{
    lemma_progress(answers, root, entry, n);
    if n > 0 {
        lemma_in_turn(answers, root, entry, (n - 1) as nat);
        let st = sim_steps(answers, root, sim_start(entry), (n - 1) as nat);
        if sim_step(answers, root, st) is Next {
            lemma_turn_step(answers, root, st);
        }
    }
}

/// A dependency whose name is known already, as the `SONAME` of a loaded object or
/// as what another object asked for, is that object: nothing is searched.
pub proof fn law_known_names_are_not_searched(
    answers: Answers,
    root: Seq<char>,
    st: SimModel,
    j: int,
)
    requires
        sim_inv(st),
        st.current < st.loaded.len(),
        st.links.len() < st.loaded[st.current].object.elf.needed.len(),
        0 <= j < st.loaded.len(),
        st.loaded[j].names.contains(next_name(st)),
    ensures
        sim_step(answers, root, st) matches StepModel::Next(next) && next.loaded == st.loaded && (
        next.links.last().resolved matches Some(i) && 0 <= i <= j
            && st.loaded[i].names.contains(next_name(st))),
{
    lemma_find_name_first(st.loaded, next_name(st), 0, j);
}

proof fn lemma_find_name_first(loaded: Seq<LoadedModel>, name: Seq<char>, i: int, j: int)
    requires
        0 <= i <= j < loaded.len(),
        loaded[j].names.contains(name),
    ensures
        find_name(loaded, name, i) matches Some(k) && i <= k <= j && loaded[k].names.contains(name),
    decreases j - i,
{
    if !loaded[i].names.contains(name) {
        lemma_find_name_first(loaded, name, i + 1, j);
    }
}

proof fn lemma_ends(answers: Answers, root: Seq<char>, st: SimModel) -> (n: nat)
    requires
        answers.dom().finite(),
        sim_inv(st),
        sim_found(answers, st),
    ensures
        !(sim_step(answers, root, sim_steps(answers, root, st, n)) is Next),
    decreases
            loadable(answers, st).len() - st.loaded.len(),
            st.loaded.len() - st.current,
            st.loaded[st.current].object.elf.needed.len() - st.links.len(),
{
    if let StepModel::Next(next) = sim_step(answers, root, st) {
        lemma_step_inv(answers, root, st);
        lemma_load_bound(answers, st);
        lemma_load_bound(answers, next);
        let n = lemma_ends(answers, root, next);
        assert(sim_steps(answers, root, st, 1) == next) by {
            reveal_with_fuel(sim_steps, 2);
        }
        lemma_steps_add(answers, root, st, 1, n);
        n + 1
    } else {
        0
    }
}

/// However the objects depend on each other, in cycles or on themselves, a
/// simulation comes to an end or to a path that has not been looked at.
pub proof fn law_simulations_end(answers: Answers, root: Seq<char>, entry: ObjectModel) -> (n: nat)
    requires
        answers.dom().finite(),
    ensures
        !(sim_step(answers, root, sim_steps(answers, root, sim_start(entry), n)) is Next),
{
    lemma_ends(answers, root, sim_start(entry))
}

/// An object with a `RUNPATH` is served from it alone: its `RPATH` and the objects
/// that loaded it make no difference.
pub proof fn law_runpath_stands_alone(
    a: Seq<LoadedModel>,
    j: int,
    b: Seq<LoadedModel>,
    k: int,
)
    requires
        a[j].object.elf.runpath is Some,
        a[j].object.elf.runpath == b[k].object.elf.runpath,
        a[j].origin == b[k].origin,
    ensures
        search_dirs(a, j) == search_dirs(b, k),
{
}

/// The `j`th object is the `k`th, or loaded it, or loaded what loaded it.
pub open spec fn in_chain(loaded: Seq<LoadedModel>, j: int, k: int) -> bool
    decreases k,
{
    j == k || (loaded[k].loader matches Some(m) && 0 <= m < k && in_chain(loaded, j, m))
}

/// The `RPATH` of an object serves what it loads, directly or not, unless there is
/// a `RUNPATH` in the way.
pub proof fn law_rpath_is_inherited(loaded: Seq<LoadedModel>, j: int, k: int, dir: Seq<char>)
    requires
        in_chain(loaded, j, k),
        loaded[k].object.elf.runpath is None,
        own_rpath(loaded[j]).contains(dir),
    ensures
        search_dirs(loaded, k).contains(dir),
{
    lemma_rpath_contains(loaded, j, k, dir);
}

proof fn lemma_rpath_contains(loaded: Seq<LoadedModel>, j: int, k: int, dir: Seq<char>)
    requires
        in_chain(loaded, j, k),
        own_rpath(loaded[j]).contains(dir),
    ensures
        rpath_dirs(loaded, k).contains(dir),
    decreases k,
{
    let own = own_rpath(loaded[k]);
    if j == k {
        let i = choose|i: int| 0 <= i < own.len() && own[i] == dir;
        assert(rpath_dirs(loaded, k)[i] == dir);
    } else {
        let m = loaded[k].loader->Some_0;
        lemma_rpath_contains(loaded, j, m, dir);
        let rest = rpath_dirs(loaded, m);
        let i = choose|i: int| 0 <= i < rest.len() && rest[i] == dir;
        assert(rpath_dirs(loaded, k)[own.len() + i] == dir);
    }
}

/// Without a `RUNPATH`, every directory that is searched is in the `RPATH` of an
/// object of the load chain that has no `RUNPATH` itself. A `RUNPATH` is never
/// inherited.
pub proof fn law_runpath_is_not_inherited(loaded: Seq<LoadedModel>, k: int, dir: Seq<char>)
    requires
        loaded[k].object.elf.runpath is None,
        search_dirs(loaded, k).contains(dir),
    ensures
        exists|j: int| #[trigger]
            in_chain(loaded, j, k) && loaded[j].object.elf.runpath is None && own_rpath(
                loaded[j],
            ).contains(dir),
{
    lemma_rpath_source(loaded, k, dir);
}

proof fn lemma_rpath_source(loaded: Seq<LoadedModel>, k: int, dir: Seq<char>)
    requires
        rpath_dirs(loaded, k).contains(dir),
    ensures
        exists|j: int| #[trigger]
            in_chain(loaded, j, k) && loaded[j].object.elf.runpath is None && own_rpath(
                loaded[j],
            ).contains(dir),
    decreases k,
{
    let own = own_rpath(loaded[k]);
    let all = rpath_dirs(loaded, k);
    let i = choose|i: int| 0 <= i < all.len() && all[i] == dir;
    if i < own.len() {
        assert(own[i] == dir);
        assert(in_chain(loaded, k, k));
    } else {
        let m = loaded[k].loader->Some_0;
        let rest = rpath_dirs(loaded, m);
        assert(rest[i - own.len()] == dir);
        lemma_rpath_source(loaded, m, dir);
        let j = choose|j: int| #[trigger]
            in_chain(loaded, j, m) && loaded[j].object.elf.runpath is None && own_rpath(
                loaded[j],
            ).contains(dir);
        assert(in_chain(loaded, j, k));
    }
}

/// What holds of every bundle: an object is known under its own canonical path,
/// which is inside the root, and every answer is a known object.
pub open spec fn bundle_inv(b: BundleModel) -> bool {
    &&& forall|c: Seq<char>| #[trigger]
        b.cache.contains_key(c) && b.cache[c] is Some ==> b.cache[c]->Some_0.path == c
            && relative_to(b.root, c) == Some(b.cache[c]->Some_0.rel)
    &&& forall|p: Seq<char>| #[trigger]
        b.answers.contains_key(p) && b.answers[p] is Some ==> b.cache.contains_key(
            b.answers[p]->Some_0.path,
        ) && b.cache[b.answers[p]->Some_0.path] == b.answers[p]
}

/// Opening files keeps what holds of every bundle. It answers the path, and what
/// was answered or known before stays.
pub proof fn law_open_keeps_the_bundle(
    b: BundleModel,
    path: Seq<char>,
    canonical: Option<Seq<char>>,
    contents: Contents,
)
    requires
        bundle_inv(b),
    ensures
        bundle_inv(opened(b, path, canonical, contents).0),
        opened(b, path, canonical, contents).0.root == b.root,
        opened(b, path, canonical, contents).0.answers == b.answers.insert(
            path,
            opened(b, path, canonical, contents).1,
        ),
        b.cache.submap_of(opened(b, path, canonical, contents).0.cache),
{
    let next = opened(b, path, canonical, contents).0;
    assert forall|p: Seq<char>| #[trigger]
        next.answers.contains_key(p) && next.answers[p] is Some implies next.cache.contains_key(
        next.answers[p]->Some_0.path,
    ) && next.cache[next.answers[p]->Some_0.path] == next.answers[p] by {
        if p != path {
            assert(b.answers.contains_key(p));
        }
    }
}

/// A file outside the root is never opened.
pub proof fn law_files_outside_the_root_are_left_alone(
    b: BundleModel,
    path: Seq<char>,
    canonical: Seq<char>,
    contents: Contents,
)
    requires
        !is_inside(b.root, canonical),
    ensures
        opened(b, path, Some(canonical), contents) == (
            answered(b, path, None),
            None::<ObjectModel>,
        ),
{
}

/// A file is the same object whenever and under whatever path it is opened.
pub proof fn law_reopening_gives_the_same_object(
    b: BundleModel,
    first: Seq<char>,
    second: Seq<char>,
    canonical: Seq<char>,
    a: Contents,
    c: Contents,
)
    ensures
        opened(opened(b, first, Some(canonical), a).0, second, Some(canonical), c).1 == opened(
            b,
            first,
            Some(canonical),
            a,
        ).1,
{
}

} // verus!
