//! Dependency resolution inside a bundle directory, following the search order
//! of glibc's ld.so for `DT_NEEDED` names:
//!
//! 1. If the requesting object has no `DT_RUNPATH`: the `DT_RPATH` of the
//!    requesting object, after that of the object that loaded it, and so on up to
//!    the executable. Objects that have a `DT_RUNPATH` contribute no `DT_RPATH`.
//! 2. `LD_LIBRARY_PATH` (not modelled: it belongs to the environment, not the files).
//! 3. The requesting object's own `DT_RUNPATH`. It is never inherited.
//! 4. ld.so.cache and the default directories. Anything that gets this far is
//!    a system library and is left unresolved.
//!
//! A name that matches the `DT_SONAME` of, or a `DT_NEEDED` name that already
//! found, an object loaded earlier is reused without searching, which is also
//! what makes dependency cycles terminate.
//!
//! Nothing here reads files. A [`Bundle`] remembers what each path turned out to
//! be, and a simulation stops at a path it has not been told about yet.

use crate::elf::{error_text, looks_like_elf, ElfFile};
use crate::elf_model::{elf_model, has_magic, ElfModel};
use crate::order::views;
use crate::paths::{
    absolute, below, is_absolute, parent, parent_of, path_below, relative_path, relative_to,
};
use crate::text::{
    alphanumeric, at_char, chars_of, find_char, has_prefix, is_alphanumeric, lemma_position, owned,
    pieces, position, push_chars, runs, same_text, split_char, starts_with, string_of, texts,
};
use crate::textmap::TextMap;
use std::rc::Rc;
use vstd::prelude::*;
use vstd::slice::slice_subrange;

verus! {

/// A character that a variable name goes on with.
pub open spec fn is_name_char(c: char) -> bool {
    is_alphanumeric(c) || c == '_'
}

/// How long the variable at the start of a text is, without its dollar sign, when
/// it stands for the origin. `ORIGINAL` does not.
pub open spec fn origin_variable(after: Seq<char>) -> Option<int> {
    if has_prefix(after, "{ORIGIN}"@) {
        Some(8)
    } else if has_prefix(after, "ORIGIN"@) && !(after.len() > 6 && is_name_char(after[6])) {
        Some(6)
    } else {
        None
    }
}

/// A search path entry with the origin put in for its variable. An entry with any
/// other variable has no meaning here.
pub open spec fn origin_expanded(entry: Seq<char>, origin: Seq<char>) -> Option<Seq<char>>
    decreases entry.len(),
{
    let p = position(entry, '$');
    if p >= entry.len() || p < 0 {
        Some(entry)
    } else {
        let after = entry.skip(p + 1);
        match origin_variable(after) {
            Some(n) => if 0 <= n <= after.len() {
                match origin_expanded(after.skip(n), origin) {
                    Some(rest) => Some(entry.take(p) + origin + rest),
                    None => None,
                }
            } else {
                None
            },
            None => None,
        }
    }
}

/// The directory that an entry of a search path stands for, if any.
pub open spec fn search_dir(entry: Seq<char>, origin: Seq<char>) -> Option<Seq<char>> {
    if entry.len() == 0 {
        None
    } else {
        match origin_expanded(entry, origin) {
            Some(dir) if is_absolute(dir) => Some(dir),
            _ => None,
        }
    }
}

/// The directories of a colon-separated search path.
pub open spec fn search_path(list: Seq<char>, origin: Seq<char>) -> Seq<Seq<char>> {
    pieces(list, at_char(':')).filter(
        |entry: Seq<char>| search_dir(entry, origin) is Some,
    ).map_values(|entry: Seq<char>| search_dir(entry, origin)->Some_0)
}

fn match_origin_variable(after: &[char]) -> (r: Option<usize>)
    ensures
        match r {
            Some(n) => origin_variable(after@) == Some(n as int) && n <= after@.len(),
            None => origin_variable(after@) is None,
        },
{
    proof {
        reveal_strlit("{ORIGIN}");
        reveal_strlit("ORIGIN");
    }
    if starts_with(after, "{ORIGIN}") {
        Some(8)
    } else if starts_with(after, "ORIGIN") && !(after.len() > 6 && (alphanumeric(after[6])
        || after[6] == '_')) {
        // Bare $ORIGIN, but only when what follows cannot be part of a longer
        // variable name.
        Some(6)
    } else {
        None
    }
}

pub fn expand_origin(entry: &str, origin: &str) -> (r: Option<String>)
    ensures
        match r {
            Some(s) => origin_expanded(entry@, origin@) == Some(s@),
            None => origin_expanded(entry@, origin@) is None,
        },
{
    let chars = chars_of(entry);
    let mut out = String::new();
    let mut rest: &[char] = chars.as_slice();
    let ghost whole = origin_expanded(entry@, origin@);
    assert(forall|t: Seq<char>| out@ + t =~= t);
    loop
        invariant
            whole == origin_expanded(entry@, origin@),
            match origin_expanded(rest@, origin@) {
                Some(t) => whole == Some(out@ + t),
                None => whole is None,
            },
        decreases rest@.len(),
    {
        let p: usize = find_char(rest, '$');
        if p >= rest.len() {
            push_chars(&mut out, rest);
            return Some(out);
        }
        let after = slice_subrange(rest, p + 1, rest.len());
        assert(after@ =~= rest@.skip(p + 1));
        match match_origin_variable(after) {
            Some(n) => {
                let head = slice_subrange(rest, 0, p);
                let ghost before = out@;
                push_chars(&mut out, head);
                out.append(origin);
                assert(head@ =~= rest@.take(p as int));
                let tail = slice_subrange(after, n, after.len());
                assert(tail@ =~= after@.skip(n as int));
                assert(forall|t: Seq<char>|
                    before + (head@ + origin@ + t) =~= before + head@ + origin@ + t);
                rest = tail;
            },
            None => {
                return None;
            },
        }
    }
}

/// Splits a colon-separated RPATH/RUNPATH and expands `$ORIGIN`. Entries that
/// stay relative or use `$LIB`/`$PLATFORM` depend on the run-time environment
/// and are dropped.
pub fn expand_search_path(list: &str, origin: &str) -> (r: Vec<String>)
    ensures
        texts(r@) == search_path(list@, origin@),
{
    let chars = chars_of(list);
    let parts = split_char(&chars, ':');
    let ghost all = pieces(list@, at_char(':'));
    let ghost keep = |entry: Seq<char>| search_dir(entry, origin@) is Some;
    let ghost get = |entry: Seq<char>| search_dir(entry, origin@)->Some_0;
    let mut out: Vec<String> = Vec::new();
    let mut i: usize = 0;
    assert(texts(out@) =~= all.take(0).filter(keep).map_values(get));
    while i < parts.len()
        invariant
            i <= parts@.len(),
            runs(parts@) == all,
            keep == (|entry: Seq<char>| search_dir(entry, origin@) is Some),
            get == (|entry: Seq<char>| search_dir(entry, origin@)->Some_0),
            texts(out@) == all.take(i as int).filter(keep).map_values(get),
        decreases parts@.len() - i,
    {
        let entry = parts[i];
        let ghost before = all.take(i as int).filter(keep);
        assert(all[i as int] == entry@);
        proof {
            assert(all.take(i + 1) =~= all.take(i as int).push(entry@));
            all.take(i as int).lemma_filter_push(entry@, keep);
            assert(before.push(entry@).map_values(get) =~= before.map_values(get).push(
                get(entry@),
            ));
        }
        if entry.len() > 0 {
            let text = string_of(entry);
            if let Some(dir) = expand_origin(text.as_str(), origin) {
                let dir_chars = chars_of(dir.as_str());
                if absolute(&dir_chars) {
                    let ghost listed = texts(out@);
                    out.push(dir);
                    assert(texts(out@) =~= listed.push(dir@));
                }
            }
        }
        i = i + 1;
    }
    assert(all.take(all.len() as int) =~= all);
    out
}

/// An ELF file inside a bundle.
#[derive(Debug)]
pub struct Object {
    /// Canonical path on disk.
    pub path: String,
    /// Path relative to the bundle root, with `/` separators.
    pub rel: String,
    pub elf: ElfFile,
}

/// An object with its words as text.
pub struct ObjectModel {
    pub path: Seq<char>,
    pub rel: Seq<char>,
    pub elf: ElfModel,
}

impl View for Object {
    type V = ObjectModel;

    open spec fn view(&self) -> ObjectModel {
        ObjectModel { path: self.path@, rel: self.rel@, elf: self.elf@ }
    }
}

/// An object that may be missing.
pub open spec fn object_view(o: Option<Rc<Object>>) -> Option<ObjectModel> {
    match o {
        Some(o) => Some(o@),
        None => None,
    }
}

/// What reading a file gave.
#[derive(Debug)]
pub enum Contents {
    /// The file could not be read, with the reason.
    Unreadable(String),
    /// A directory, a device or the like.
    NotAFile,
    /// The bytes of the file. Of a file that does not start with the ELF magic
    /// bytes, the first four are enough.
    Data(Vec<u8>),
}

/// The object that a file holds. A file that does not look like ELF holds none;
/// one that does and cannot be parsed is an error.
pub open spec fn file_object(contents: Contents) -> Result<Option<ElfModel>, Seq<char>> {
    match contents {
        Contents::Unreadable(message) => Err(message@),
        Contents::NotAFile => Ok(None),
        Contents::Data(data) => if has_magic(data@) {
            match elf_model(data@) {
                Ok(elf) => Ok(Some(elf)),
                Err(e) => Err(error_text(e)),
            }
        } else {
            Ok(None)
        },
    }
}

fn read_elf(contents: &Contents) -> (r: Result<Option<ElfFile>, String>)
    ensures
        match r {
            Ok(Some(elf)) => file_object(*contents) == Ok::<_, Seq<char>>(Some(elf@)),
            Ok(None) => file_object(*contents) == Ok::<Option<ElfModel>, Seq<char>>(None),
            Err(message) => file_object(*contents) == Err::<Option<ElfModel>, _>(message@),
        },
{
    match contents {
        Contents::Unreadable(message) => Err(message.clone()),
        Contents::NotAFile => Ok(None),
        Contents::Data(data) => {
            if !looks_like_elf(data.as_slice()) {
                return Ok(None);
            }
            match ElfFile::parse(data.as_slice()) {
                Ok(elf) => Ok(Some(elf)),
                Err(e) => Err(e.message()),
            }
        },
    }
}

/// What each requested path turned out to be.
pub type Answers = Map<Seq<char>, Option<ObjectModel>>;

/// The files of a bundle, as far as they have been looked at.
pub struct BundleModel {
    pub root: Seq<char>,
    /// What each canonical path inside the root holds.
    pub cache: Map<Seq<char>, Option<ObjectModel>>,
    pub answers: Answers,
    /// Why files could not be loaded, by their path relative to the root.
    pub errors: Map<Seq<char>, Seq<char>>,
}

/// A bundle in which a path has been answered.
pub open spec fn answered(b: BundleModel, path: Seq<char>, o: Option<ObjectModel>) -> BundleModel {
    BundleModel { answers: b.answers.insert(path, o), ..b }
}

/// What opening a path does. `canonical` is the canonical path, if there is one;
/// `contents` matters only for a canonical path that is inside the root and new.
/// Gives the bundle and the object, if any.
pub open spec fn opened(
    b: BundleModel,
    path: Seq<char>,
    canonical: Option<Seq<char>>,
    contents: Contents,
) -> (BundleModel, Option<ObjectModel>) {
    match canonical {
        None => (answered(b, path, None), None),
        Some(c) => match relative_to(b.root, c) {
            None => (answered(b, path, None), None),
            Some(rel) => if b.cache.contains_key(c) {
                (answered(b, path, b.cache[c]), b.cache[c])
            } else {
                match file_object(contents) {
                    Ok(Some(elf)) => {
                        let o = Some(ObjectModel { path: c, rel, elf });
                        (answered(BundleModel { cache: b.cache.insert(c, o), ..b }, path, o), o)
                    },
                    Ok(None) => (
                        answered(BundleModel { cache: b.cache.insert(c, None), ..b }, path, None),
                        None,
                    ),
                    Err(message) => (
                        answered(
                            BundleModel {
                                cache: b.cache.insert(c, None),
                                errors: b.errors.insert(rel, message),
                                ..b
                            },
                            path,
                            None,
                        ),
                        None,
                    ),
                }
            },
        },
    }
}

/// The files of a bundle directory, as far as they have been looked at.
#[derive(Debug)]
pub struct Bundle {
    root: String,
    cache: TextMap<Option<Rc<Object>>>,
    answers: TextMap<Option<Rc<Object>>>,
    errors: TextMap<String>,
}

/// The objects of a map.
pub open spec fn object_map(m: Map<Seq<char>, Option<Rc<Object>>>) -> Map<
    Seq<char>,
    Option<ObjectModel>,
> {
    m.map_values(|o: Option<Rc<Object>>| object_view(o))
}

impl View for Bundle {
    type V = BundleModel;

    closed spec fn view(&self) -> BundleModel {
        BundleModel {
            root: self.root@,
            cache: object_map(self.cache@),
            answers: object_map(self.answers@),
            errors: self.errors@.map_values(|s: String| s@),
        }
    }
}

impl Bundle {
    pub closed spec fn wf(&self) -> bool {
        self.cache.wf() && self.answers.wf() && self.errors.wf()
    }

    /// A bundle with the given canonical root, of which nothing is known yet.
    pub fn new(root: &str) -> (r: Bundle)
        ensures
            r.wf(),
            r@ == (BundleModel {
                root: root@,
                cache: Map::empty(),
                answers: Map::empty(),
                errors: Map::empty(),
            }),
    {
        let r = Bundle {
            root: owned(root),
            cache: TextMap::new(),
            answers: TextMap::new(),
            errors: TextMap::new(),
        };
        assert(r@.cache =~= Map::empty());
        assert(r@.answers =~= Map::empty());
        assert(r@.errors =~= Map::empty());
        r
    }

    pub fn root(&self) -> (r: &str)
        ensures
            r@ == self@.root,
    {
        self.root.as_str()
    }

    /// Files that looked like ELF (or could not be read) but failed to load,
    /// keyed by path relative to the root.
    pub fn errors(&self) -> (r: &TextMap<String>)
        requires
            self.wf(),
        ensures
            r.wf(),
            r@.map_values(|s: String| s@) == self@.errors,
    {
        &self.errors
    }

    pub fn record_error(&mut self, rel: String, message: String)
        requires
            old(self).wf(),
        ensures
            final(self).wf(),
            final(self)@ == (BundleModel {
                errors: old(self)@.errors.insert(rel@, message@),
                ..old(self)@
            }),
    {
        let ghost k = rel@;
        let ghost m = message@;
        self.errors.insert(rel, message);
        assert(self@.errors =~= old(self)@.errors.insert(k, m));
    }

    /// A path inside the root, seen from there.
    pub fn relative(&self, canonical: &str) -> (r: Option<String>)
        ensures
            match r {
                Some(s) => relative_to(self@.root, canonical@) == Some(s@),
                None => relative_to(self@.root, canonical@) is None,
            },
    {
        relative_path(self.root.as_str(), canonical)
    }

    /// Whether the contents of a canonical path do not matter any more.
    pub fn is_settled(&self, canonical: &str) -> (r: bool)
        requires
            self.wf(),
        ensures
            r == (relative_to(self@.root, canonical@) is None || self@.cache.contains_key(
                canonical@,
            )),
    {
        self.relative(canonical).is_none() || self.cache.has(canonical)
    }

    /// Whether it is known what a path holds.
    pub fn is_answered(&self, path: &str) -> (r: bool)
        requires
            self.wf(),
        ensures
            r == self@.answers.contains_key(path@),
    {
        self.answers.has(path)
    }

    fn answer(&mut self, path: &str, object: Option<Rc<Object>>)
        requires
            old(self).wf(),
        ensures
            final(self).wf(),
            final(self)@ == answered(old(self)@, path@, object_view(object)),
    {
        self.answers.insert(owned(path), object);
        assert(self@.answers =~= old(self)@.answers.insert(path@, object_view(object)));
    }

    fn remember(&mut self, canonical: &str, object: Option<Rc<Object>>)
        requires
            old(self).wf(),
        ensures
            final(self).wf(),
            final(self)@ == (BundleModel {
                cache: old(self)@.cache.insert(canonical@, object_view(object)),
                ..old(self)@
            }),
    {
        self.cache.insert(owned(canonical), object);
        assert(self@.cache =~= old(self)@.cache.insert(canonical@, object_view(object)));
    }

    /// Loads an ELF file inside the root. Gives `None` for anything outside the
    /// root, non-ELF files, and files that fail to parse (recorded in
    /// [`Bundle::errors`]).
    pub fn open(&mut self, path: &str, canonical: Option<&str>, contents: &Contents) -> (r: Option<
        Rc<Object>,
    >)
        requires
            old(self).wf(),
        ensures
            final(self).wf(),
            opened(
                old(self)@,
                path@,
                match canonical {
                    Some(c) => Some(c@),
                    None => None,
                },
                *contents,
            ) == (final(self)@, object_view(r)),
    {
        let Some(c) = canonical else {
            self.answer(path, None);
            return None;
        };
        let Some(rel) = self.relative(c) else {
            self.answer(path, None);
            return None;
        };
        let known: Option<Option<Rc<Object>>> = match self.cache.get(c) {
            Some(Some(object)) => Some(Some(Rc::clone(object))),
            Some(None) => Some(None),
            None => None,
        };
        let result: Option<Rc<Object>> = match known {
            Some(object) => object,
            None => {
                let entry: Option<Rc<Object>> = match read_elf(contents) {
                    Ok(Some(elf)) => Some(Rc::new(Object { path: owned(c), rel, elf })),
                    Ok(None) => None,
                    Err(message) => {
                        self.record_error(rel, message);
                        None
                    },
                };
                let copy: Option<Rc<Object>> = match &entry {
                    Some(object) => Some(Rc::clone(object)),
                    None => None,
                };
                self.remember(c, copy);
                entry
            },
        };
        let copy: Option<Rc<Object>> = match &result {
            Some(object) => Some(Rc::clone(object)),
            None => None,
        };
        self.answer(path, copy);
        result
    }
}

/// A `DT_NEEDED` name and what it led to.
#[derive(Debug, Clone)]
pub struct NeededLink {
    pub name: String,
    /// Index into the load list, or `None` when ld.so would go to the system.
    pub resolved: Option<usize>,
}

/// A link with its name as text.
pub struct LinkModel {
    pub name: Seq<char>,
    pub resolved: Option<int>,
}

/// An index that may be missing.
pub open spec fn index_view(i: Option<usize>) -> Option<int> {
    match i {
        Some(i) => Some(i as int),
        None => None,
    }
}

impl View for NeededLink {
    type V = LinkModel;

    open spec fn view(&self) -> LinkModel {
        LinkModel { name: self.name@, resolved: index_view(self.resolved) }
    }
}

/// An object of a load list.
#[derive(Debug, Clone)]
pub struct LoadedObject {
    pub object: Rc<Object>,
    /// Index of the object whose `DT_NEEDED` caused this one to load.
    pub loader: Option<usize>,
    pub needed: Vec<NeededLink>,
    /// Directory `$ORIGIN` expands to: where the object was found, before
    /// symlinks are resolved, as ld.so sees it.
    pub origin: String,
    /// The names under which the object is reused without searching.
    pub names: Vec<String>,
}

/// An object of a load list with its words as text.
pub struct LoadedModel {
    pub object: ObjectModel,
    pub loader: Option<int>,
    pub needed: Seq<LinkModel>,
    pub origin: Seq<char>,
    pub names: Seq<Seq<char>>,
}

impl View for LoadedObject {
    type V = LoadedModel;

    open spec fn view(&self) -> LoadedModel {
        LoadedModel {
            object: self.object@,
            loader: index_view(self.loader),
            needed: views(self.needed@),
            origin: self.origin@,
            names: texts(self.names@),
        }
    }
}

/// The `SONAME` of an object, if it has one.
pub open spec fn own_names(elf: ElfModel) -> Seq<Seq<char>> {
    match elf.soname {
        Some(s) => seq![s],
        None => Seq::empty(),
    }
}

/// The directories that the `RPATH` of an object adds to a search: none when it
/// has a `RUNPATH`.
pub open spec fn own_rpath(l: LoadedModel) -> Seq<Seq<char>> {
    match (l.object.elf.runpath, l.object.elf.rpath) {
        (None, Some(list)) => search_path(list, l.origin),
        _ => Seq::empty(),
    }
}

/// The `RPATH` directories of an object, of the object that loaded it, and so on.
pub open spec fn rpath_dirs(loaded: Seq<LoadedModel>, k: int) -> Seq<Seq<char>>
    decreases k,
{
    match loaded[k].loader {
        Some(j) if 0 <= j < k => own_rpath(loaded[k]) + rpath_dirs(loaded, j),
        _ => own_rpath(loaded[k]),
    }
}

/// The directories that are searched for a dependency of the `k`th object.
pub open spec fn search_dirs(loaded: Seq<LoadedModel>, k: int) -> Seq<Seq<char>> {
    match loaded[k].object.elf.runpath {
        Some(list) => search_path(list, loaded[k].origin),
        None => rpath_dirs(loaded, k),
    }
}

/// The paths that may hold a dependency of the `k`th object, in search order. A
/// name with a slash is a path itself; a relative one is relative to the working
/// directory at run time, which the bundle root stands in for.
pub open spec fn candidates(
    root: Seq<char>,
    loaded: Seq<LoadedModel>,
    k: int,
    name: Seq<char>,
) -> Seq<Seq<char>> {
    if name.contains('/') {
        seq![below(root, name)]
    } else {
        search_dirs(loaded, k).map_values(|dir: Seq<char>| below(dir, name))
    }
}

/// Objects built for the same class, byte order and machine.
pub open spec fn same_target(a: ElfModel, b: ElfModel) -> bool {
    a.class == b.class && a.endian == b.endian && a.machine == b.machine
}

/// The outcome of a search.
pub enum SearchModel {
    /// It is not known yet what this path holds.
    Ask(Seq<char>),
    /// An object, and the directory it was found in.
    Found(ObjectModel, Seq<char>),
    Missing,
}

/// Searches the paths from the `i`th on. Files built for another target are
/// skipped, as ld.so skips them.
pub open spec fn search_from(
    answers: Answers,
    paths: Seq<Seq<char>>,
    target: ElfModel,
    i: int,
) -> SearchModel
    decreases paths.len() - i,
{
    if i >= paths.len() {
        SearchModel::Missing
    } else if !answers.contains_key(paths[i]) {
        SearchModel::Ask(paths[i])
    } else {
        match (answers[paths[i]], parent(paths[i])) {
            (Some(o), Some(origin)) if same_target(o.elf, target) => SearchModel::Found(o, origin),
            _ => search_from(answers, paths, target, i + 1),
        }
    }
}

/// The first object from the `i`th on that goes by a name.
pub open spec fn find_name(loaded: Seq<LoadedModel>, name: Seq<char>, i: int) -> Option<int>
    decreases loaded.len() - i,
{
    if i >= loaded.len() {
        None
    } else if loaded[i].names.contains(name) {
        Some(i)
    } else {
        find_name(loaded, name, i + 1)
    }
}

/// The first object from the `i`th on with a canonical path.
pub open spec fn find_path(loaded: Seq<LoadedModel>, path: Seq<char>, i: int) -> Option<int>
    decreases loaded.len() - i,
{
    if i >= loaded.len() {
        None
    } else if loaded[i].object.path == path {
        Some(i)
    } else {
        find_path(loaded, path, i + 1)
    }
}

/// A simulation of ld.so: the load list so far, the object whose dependencies are
/// being resolved, and the links it has already.
pub struct SimModel {
    pub loaded: Seq<LoadedModel>,
    pub current: int,
    pub links: Seq<LinkModel>,
}

/// The simulation that starts on an object.
pub open spec fn sim_start(entry: ObjectModel) -> SimModel {
    SimModel {
        loaded: seq![
            LoadedModel {
                object: entry,
                loader: None,
                needed: Seq::empty(),
                origin: match parent(entry.path) {
                    Some(dir) => dir,
                    None => Seq::empty(),
                },
                names: own_names(entry.elf),
            },
        ],
        current: 0,
        links: Seq::empty(),
    }
}

/// What comes next in a simulation.
pub enum StepModel {
    /// Everything is loaded.
    Done,
    /// It must first be known what this path holds.
    Ask(Seq<char>),
    Next(SimModel),
}

/// The dependency that comes next.
pub open spec fn next_name(st: SimModel) -> Seq<char> {
    st.loaded[st.current].object.elf.needed[st.links.len() as int]
}

/// A simulation whose next dependency has been resolved.
pub open spec fn linked(st: SimModel, loaded: Seq<LoadedModel>, resolved: Option<int>) -> SimModel {
    SimModel {
        loaded,
        links: st.links.push(LinkModel { name: next_name(st), resolved }),
        ..st
    }
}

/// A simulation whose next dependency has been found by searching: a file that is
/// loaded already gets another name, a new one joins the load list.
pub open spec fn found_step(st: SimModel, o: ObjectModel, origin: Seq<char>) -> SimModel {
    let name = next_name(st);
    match find_path(st.loaded, o.path, 0) {
        Some(j) => linked(
            st,
            st.loaded.update(
                j,
                LoadedModel { names: st.loaded[j].names.push(name), ..st.loaded[j] },
            ),
            Some(j),
        ),
        None => linked(
            st,
            st.loaded.push(
                LoadedModel {
                    object: o,
                    loader: Some(st.current),
                    needed: Seq::empty(),
                    origin,
                    names: own_names(o.elf).push(name),
                },
            ),
            Some(st.loaded.len() as int),
        ),
    }
}

/// One step of a simulation.
pub open spec fn sim_step(answers: Answers, root: Seq<char>, st: SimModel) -> StepModel {
    if st.current >= st.loaded.len() {
        StepModel::Done
    } else if st.links.len() >= st.loaded[st.current].object.elf.needed.len() {
        StepModel::Next(
            SimModel {
                loaded: st.loaded.update(
                    st.current,
                    LoadedModel { needed: st.links, ..st.loaded[st.current] },
                ),
                current: st.current + 1,
                links: Seq::empty(),
            },
        )
    } else {
        let name = next_name(st);
        match find_name(st.loaded, name, 0) {
            Some(j) => StepModel::Next(linked(st, st.loaded, Some(j))),
            None => match search_from(
                answers,
                candidates(root, st.loaded, st.current, name),
                st.loaded[st.current].object.elf,
                0,
            ) {
                SearchModel::Ask(path) => StepModel::Ask(path),
                SearchModel::Missing => StepModel::Next(linked(st, st.loaded, None)),
                SearchModel::Found(o, origin) => StepModel::Next(found_step(st, o, origin)),
            },
        }
    }
}

/// A simulation after `n` steps.
pub open spec fn sim_steps(answers: Answers, root: Seq<char>, st: SimModel, n: nat) -> SimModel
    decreases n,
{
    if n == 0 {
        st
    } else {
        let before = sim_steps(answers, root, st, (n - 1) as nat);
        match sim_step(answers, root, before) {
            StepModel::Next(next) => next,
            _ => before,
        }
    }
}

/// A list of objects that a simulation started on `entry` ends with.
pub open spec fn is_load_list(
    answers: Answers,
    root: Seq<char>,
    entry: ObjectModel,
    list: Seq<LoadedModel>,
) -> bool {
    exists|n: nat|
        (#[trigger] sim_steps(answers, root, sim_start(entry), n)).loaded == list && sim_step(
            answers,
            root,
            sim_steps(answers, root, sim_start(entry), n),
        ) == StepModel::Done
}

/// What holds of every simulation: no file is loaded twice, and an object was
/// loaded by an earlier one.
pub open spec fn sim_inv(st: SimModel) -> bool {
    &&& 0 <= st.current <= st.loaded.len()
    &&& st.loaded.len() > 0
    &&& st.current < st.loaded.len() ==> st.links.len()
        <= st.loaded[st.current].object.elf.needed.len()
    &&& forall|k: int|
        0 <= k < st.loaded.len() ==> ((#[trigger] st.loaded[k]).loader matches Some(j) ==> 0 <= j < k)
    &&& forall|i: int, j: int|
        0 <= i < j < st.loaded.len() ==> (#[trigger] st.loaded[i]).object.path != (
        #[trigger] st.loaded[j]).object.path
}

/// Some path turned out to be this object.
pub open spec fn is_answer(answers: Answers, o: ObjectModel) -> bool {
    exists|path: Seq<char>| #[trigger] answers.contains_key(path) && answers[path] == Some(o)
}

/// Every object but the first was found by searching.
pub open spec fn sim_found(answers: Answers, st: SimModel) -> bool {
    forall|k: int| 0 < k < st.loaded.len() ==> is_answer(answers, (#[trigger] st.loaded[k]).object)
}

/// A simulation of ld.so loading an object and its `DT_NEEDED` closure
/// breadth-first, the order ld.so maps dependencies in.
#[derive(Debug)]
pub struct Simulation {
    loaded: Vec<LoadedObject>,
    current: usize,
    links: Vec<NeededLink>,
}

impl View for Simulation {
    type V = SimModel;

    closed spec fn view(&self) -> SimModel {
        SimModel {
            loaded: views(self.loaded@),
            current: self.current as int,
            links: views(self.links@),
        }
    }
}

impl Simulation {
    /// A simulation that starts on an object; it gets index 0 of the load list.
    pub fn new(entry: Rc<Object>) -> (r: Simulation)
        ensures
            r@ == sim_start(entry@),
            sim_inv(r@),
    {
        let origin = match parent_of(entry.path.as_str()) {
            Some(dir) => dir,
            None => String::new(),
        };
        let names = names_of(&entry.elf);
        let ghost object = entry@;
        let ghost dir = origin@;
        let ghost called = texts(names@);
        let first = LoadedObject { object: entry, loader: None, needed: Vec::new(), origin, names };
        assert(dir =~= (match parent(object.path) {
            Some(dir) => dir,
            None => Seq::empty(),
        }));
        assert(first@.needed =~= Seq::<LinkModel>::empty());
        let mut loaded: Vec<LoadedObject> = Vec::new();
        loaded.push(first);
        let r = Simulation { loaded, current: 0, links: Vec::new() };
        assert(r@.loaded =~= sim_start(object).loaded);
        assert(r@.links =~= Seq::<LinkModel>::empty());
        r
    }

    /// The load list so far.
    pub fn loaded(&self) -> (r: &Vec<LoadedObject>)
        ensures
            views(r@) == self@.loaded,
    {
        &self.loaded
    }
}

fn names_of(elf: &ElfFile) -> (r: Vec<String>)
    ensures
        texts(r@) == own_names(elf@),
{
    let mut names: Vec<String> = Vec::new();
    if let Some(soname) = &elf.soname {
        names.push(soname.clone());
    }
    assert(texts(names@) =~= own_names(elf@));
    names
}

fn has_name(names: &Vec<String>, name: &str) -> (r: bool)
    ensures
        r == texts(names@).contains(name@),
{
    let mut i: usize = 0;
    while i < names.len()
        invariant
            i <= names@.len(),
            forall|j: int| 0 <= j < i ==> #[trigger] texts(names@)[j] != name@,
        decreases names@.len() - i,
    {
        assert(texts(names@)[i as int] == names@[i as int]@);
        if same_text(names[i].as_str(), name) {
            return true;
        }
        i = i + 1;
    }
    false
}

fn position_of_name(loaded: &Vec<LoadedObject>, name: &str) -> (r: Option<usize>)
    ensures
        match r {
            Some(j) => find_name(views(loaded@), name@, 0) == Some(j as int) && j < loaded@.len(),
            None => find_name(views(loaded@), name@, 0) is None,
        },
{
    let mut i: usize = 0;
    while i < loaded.len()
        invariant
            i <= loaded@.len(),
            find_name(views(loaded@), name@, 0) == find_name(views(loaded@), name@, i as int),
        decreases loaded@.len() - i,
    {
        assert(views(loaded@)[i as int] == loaded@[i as int]@);
        if has_name(&loaded[i].names, name) {
            return Some(i);
        }
        i = i + 1;
    }
    None
}

fn position_of_path(loaded: &Vec<LoadedObject>, path: &str) -> (r: Option<usize>)
    ensures
        match r {
            Some(j) => find_path(views(loaded@), path@, 0) == Some(j as int) && j < loaded@.len(),
            None => find_path(views(loaded@), path@, 0) is None,
        },
{
    let mut i: usize = 0;
    while i < loaded.len()
        invariant
            i <= loaded@.len(),
            find_path(views(loaded@), path@, 0) == find_path(views(loaded@), path@, i as int),
        decreases loaded@.len() - i,
    {
        assert(views(loaded@)[i as int] == loaded@[i as int]@);
        if same_text(loaded[i].object.path.as_str(), path) {
            return Some(i);
        }
        i = i + 1;
    }
    None
}

/// Adds the directories of a search path.
fn extend_dirs(dirs: &mut Vec<String>, list: &str, origin: &str)
    ensures
        texts(final(dirs)@) == texts(old(dirs)@) + search_path(list@, origin@),
{
    let mut more = expand_search_path(list, origin);
    let ghost a = dirs@;
    let ghost b = more@;
    dirs.append(&mut more);
    assert(texts(a + b) =~= texts(a) + texts(b));
}

/// The directories that are searched for a dependency of the `k`th object.
fn dirs_for(loaded: &Vec<LoadedObject>, k: usize) -> (r: Vec<String>)
    requires
        k < loaded@.len(),
        forall|m: int|
            0 <= m < loaded@.len() ==> ((#[trigger] views(loaded@)[m]).loader matches Some(j)
                ==> j < m),
    ensures
        texts(r@) == search_dirs(views(loaded@), k as int),
{
    let ghost model = views(loaded@);
    let mut dirs: Vec<String> = Vec::new();
    let req = &loaded[k];
    assert(model[k as int] == req@);
    assert(texts(dirs@) =~= Seq::<Seq<char>>::empty());
    if let Some(runpath) = &req.object.elf.runpath {
        extend_dirs(&mut dirs, runpath.as_str(), req.origin.as_str());
        assert(texts(dirs@) =~= search_path(runpath@, req.origin@));
        return dirs;
    }
    let mut m: usize = k;
    loop
        invariant
            m < loaded@.len(),
            model == views(loaded@),
            forall|m: int|
                0 <= m < loaded@.len() ==> ((#[trigger] model[m]).loader matches Some(j) ==> j < m),
            rpath_dirs(model, k as int) =~= texts(dirs@) + rpath_dirs(model, m as int),
            search_dirs(model, k as int) == rpath_dirs(model, k as int),
        decreases m,
    {
        let l = &loaded[m];
        assert(model[m as int] == l@);
        let ghost before = texts(dirs@);
        if l.object.elf.runpath.is_none() {
            if let Some(rpath) = &l.object.elf.rpath {
                extend_dirs(&mut dirs, rpath.as_str(), l.origin.as_str());
            }
        }
        assert(texts(dirs@) =~= before + own_rpath(l@));
        match l.loader {
            Some(j) => {
                assert(texts(dirs@) + rpath_dirs(model, j as int) =~= before + (own_rpath(l@)
                    + rpath_dirs(model, j as int)));
                m = j;
            },
            None => {
                return dirs;
            },
        }
    }
}

/// The outcome of a search.
enum Search {
    Ask(String),
    Found(Rc<Object>, String),
    Missing,
}

impl View for Search {
    type V = SearchModel;

    closed spec fn view(&self) -> SearchModel {
        match self {
            Search::Ask(path) => SearchModel::Ask(path@),
            Search::Found(o, origin) => SearchModel::Found(o@, origin@),
            Search::Missing => SearchModel::Missing,
        }
    }
}

/// How far a step of a simulation came.
enum Progress {
    Done,
    Ask(String),
    Next,
}

impl Bundle {
    /// The paths that may hold a dependency of the `k`th object, in search order.
    fn candidate_paths(&self, loaded: &Vec<LoadedObject>, k: usize, name: &str) -> (r: Vec<String>)
        requires
            k < loaded@.len(),
            forall|m: int|
                0 <= m < loaded@.len() ==> ((#[trigger] views(loaded@)[m]).loader matches Some(j)
                    ==> j < m),
        ensures
            texts(r@) == candidates(self@.root, views(loaded@), k as int, name@),
    {
        let chars = chars_of(name);
        let mut out: Vec<String> = Vec::new();
        let slash: usize = find_char(&chars, '/');
        proof {
            lemma_position(name@, '/');
        }
        if slash < chars.len() {
            assert(name@[slash as int] == '/');
            out.push(path_below(self.root.as_str(), name));
            assert(texts(out@) =~= seq![below(self@.root, name@)]);
            return out;
        }
        assert(!name@.contains('/'));
        let dirs = dirs_for(loaded, k);
        let ghost all = search_dirs(views(loaded@), k as int);
        let mut i: usize = 0;
        while i < dirs.len()
            invariant
                i <= dirs@.len(),
                texts(dirs@) == all,
                out@.len() == i,
                forall|j: int| 0 <= j < i ==> (#[trigger] out@[j])@ == below(all[j], name@),
            decreases dirs@.len() - i,
        {
            assert(all[i as int] == dirs@[i as int]@);
            out.push(path_below(dirs[i].as_str(), name));
            i = i + 1;
        }
        assert(texts(out@) =~= all.map_values(|dir: Seq<char>| below(dir, name@)));
        out
    }

    /// The object at a path and the directory it is in, when it fits the target.
    fn candidate(&self, path: &str, target: &ElfFile) -> (r: Option<(Rc<Object>, String)>)
        requires
            self.wf(),
            self@.answers.contains_key(path@),
        ensures
            match r {
                Some((o, origin)) => self@.answers[path@] == Some(o@) && parent(path@) == Some(
                    origin@,
                ) && same_target(o@.elf, target@),
                None => parent(path@) is None || self@.answers[path@] is None || !same_target(
                    self@.answers[path@]->Some_0.elf,
                    target@,
                ),
            },
    {
        let object = match self.answers.get(path) {
            Some(Some(object)) => object,
            _ => {
                return None;
            },
        };
        // ld.so skips files built for another class or machine and keeps searching.
        if object.elf.class != target.class || object.elf.endian != target.endian
            || object.elf.machine != target.machine {
            return None;
        }
        match parent_of(path) {
            Some(origin) => Some((Rc::clone(object), origin)),
            None => None,
        }
    }

    /// Looks for a dependency of the `k`th object.
    fn search(&self, loaded: &Vec<LoadedObject>, k: usize, name: &str) -> (r: Search)
        requires
            self.wf(),
            k < loaded@.len(),
            forall|m: int|
                0 <= m < loaded@.len() ==> ((#[trigger] views(loaded@)[m]).loader matches Some(j)
                    ==> j < m),
        ensures
            r@ == search_from(
                self@.answers,
                candidates(self@.root, views(loaded@), k as int, name@),
                views(loaded@)[k as int].object.elf,
                0,
            ),
    {
        let paths = self.candidate_paths(loaded, k, name);
        let ghost all = candidates(self@.root, views(loaded@), k as int, name@);
        let target = &loaded[k].object.elf;
        let ghost wanted = views(loaded@)[k as int].object.elf;
        assert(wanted == target@);
        let mut i: usize = 0;
        while i < paths.len()
            invariant
                i <= paths@.len(),
                self.wf(),
                texts(paths@) == all,
                all == candidates(self@.root, views(loaded@), k as int, name@),
                wanted == views(loaded@)[k as int].object.elf,
                wanted == target@,
                search_from(self@.answers, all, wanted, 0) == search_from(
                    self@.answers,
                    all,
                    wanted,
                    i as int,
                ),
            decreases paths@.len() - i,
        {
            let path = &paths[i];
            assert(all[i as int] == path@);
            if !self.answers.has(path.as_str()) {
                return Search::Ask(path.clone());
            }
            if let Some((object, origin)) = self.candidate(path.as_str(), target) {
                return Search::Found(object, origin);
            }
            i = i + 1;
        }
        Search::Missing
    }

    /// One step of a simulation.
    fn step(&self, sim: &mut Simulation) -> (r: Progress)
        requires
            self.wf(),
            sim_inv(old(sim)@),
        ensures
            match r {
                Progress::Done => sim_step(self@.answers, self@.root, old(sim)@) == StepModel::Done
                    && final(sim)@ == old(sim)@,
                Progress::Ask(path) => sim_step(self@.answers, self@.root, old(sim)@)
                    == StepModel::Ask(path@) && final(sim)@ == old(sim)@,
                Progress::Next => sim_step(self@.answers, self@.root, old(sim)@)
                    == StepModel::Next(final(sim)@),
            },
    {
        let ghost st = sim@;
        let i: usize = sim.current;
        if i >= sim.loaded.len() {
            return Progress::Done;
        }
        let object = Rc::clone(&sim.loaded[i].object);
        assert(st.loaded[i as int] == sim.loaded@[i as int]@);
        if sim.links.len() >= object.elf.needed.len() {
            let mut links: Vec<NeededLink> = Vec::new();
            std::mem::swap(&mut links, &mut sim.links);
            sim.loaded[i].needed = links;
            sim.current = i + 1;
            assert(sim@.loaded =~= st.loaded.update(
                i as int,
                LoadedModel { needed: st.links, ..st.loaded[i as int] },
            ));
            assert(sim@.links =~= Seq::<LinkModel>::empty());
            return Progress::Next;
        }
        let name = object.elf.needed[sim.links.len()].clone();
        assert(name@ == next_name(st));
        let resolved: Option<usize> = match position_of_name(&sim.loaded, name.as_str()) {
            Some(j) => Some(j),
            None => match self.search(&sim.loaded, i, name.as_str()) {
                Search::Ask(path) => {
                    return Progress::Ask(path);
                },
                Search::Missing => None,
                Search::Found(found, origin) => {
                    match position_of_path(&sim.loaded, found.path.as_str()) {
                        Some(j) => {
                            sim.loaded[j].names.push(name.clone());
                            assert(sim@.loaded[j as int].names =~= st.loaded[j as int].names.push(
                                name@,
                            ));
                            assert(sim@.loaded =~= found_step(st, found@, origin@).loaded);
                            Some(j)
                        },
                        None => {
                            let mut names = names_of(&found.elf);
                            let ghost own = texts(names@);
                            names.push(name.clone());
                            assert(texts(names@) =~= own.push(name@));
                            let at: usize = sim.loaded.len();
                            let ghost o = found@;
                            let ghost dir = origin@;
                            let new = LoadedObject {
                                object: found,
                                loader: Some(i),
                                needed: Vec::new(),
                                origin,
                                names,
                            };
                            assert(new@.needed =~= Seq::<LinkModel>::empty());
                            sim.loaded.push(new);
                            assert(sim@.loaded =~= found_step(st, o, dir).loaded);
                            Some(at)
                        },
                    }
                },
            },
        };
        let ghost links = sim@.links;
        let link = NeededLink { name, resolved };
        sim.links.push(link);
        assert(sim@.links =~= links.push(link@));
        Progress::Next
    }
}

/// The canonical paths of the objects that have been found.
pub open spec fn found_paths(answers: Answers) -> Set<Seq<char>> {
    Set::new(|p: Seq<char>| exists|o: ObjectModel| #[trigger] is_answer(answers, o) && o.path == p)
}

pub proof fn lemma_found_paths_finite(answers: Answers)
    requires
        answers.dom().finite(),
    ensures
        found_paths(answers).finite(),
{
    let all = answers.dom().map(|k: Seq<char>| answers[k]->Some_0.path);
    answers.dom().lemma_map_finite(|k: Seq<char>| answers[k]->Some_0.path);
    assert forall|p: Seq<char>| found_paths(answers).contains(p) implies all.contains(p) by {
        let o = choose|o: ObjectModel| #[trigger] is_answer(answers, o) && o.path == p;
        let k = choose|k: Seq<char>| #[trigger]
            answers.contains_key(k) && answers[k] == Some(o);
        assert(answers.dom().contains(k));
    }
    vstd::set_lib::lemma_set_subset_finite(all, found_paths(answers));
}

/// The files that a simulation can load.
pub open spec fn loadable(answers: Answers, st: SimModel) -> Set<Seq<char>> {
    found_paths(answers).insert(st.loaded[0].object.path)
}

/// A load list is no longer than the number of files there are.
pub proof fn lemma_load_bound(answers: Answers, st: SimModel)
    requires
        answers.dom().finite(),
        sim_inv(st),
        sim_found(answers, st),
    ensures
        st.loaded.len() <= loadable(answers, st).len(),
{
    let paths = st.loaded.map_values(|l: LoadedModel| l.object.path);
    lemma_found_paths_finite(answers);
    assert(paths.no_duplicates());
    paths.unique_seq_to_set();
    assert forall|p: Seq<char>| paths.to_set().contains(p) implies loadable(answers, st).contains(
        p,
    ) by {
        let k = choose|k: int| 0 <= k < paths.len() && paths[k] == p;
        if k > 0 {
            assert(is_answer(answers, st.loaded[k].object));
        }
    }
    vstd::set_lib::lemma_len_subset(paths.to_set(), loadable(answers, st));
}

proof fn lemma_search_found(
    answers: Answers,
    paths: Seq<Seq<char>>,
    target: ElfModel,
    i: int,
)
    requires
        0 <= i,
    ensures
        search_from(answers, paths, target, i) matches SearchModel::Found(o, _) ==> is_answer(
            answers,
            o,
        ) && same_target(o.elf, target),
    decreases paths.len() - i,
{
    if i < paths.len() && answers.contains_key(paths[i]) {
        lemma_search_found(answers, paths, target, i + 1);
    }
}

/// Where a canonical path is found, or that no object has it.
pub proof fn lemma_find_path(loaded: Seq<LoadedModel>, path: Seq<char>, i: int)
    requires
        0 <= i,
    ensures
        match find_path(loaded, path, i) {
            Some(j) => i <= j < loaded.len() && loaded[j].object.path == path,
            None => forall|k: int| i <= k < loaded.len() ==> (#[trigger] loaded[k]).object.path
                != path,
        },
    decreases loaded.len() - i,
{
    if i < loaded.len() && loaded[i].object.path != path {
        lemma_find_path(loaded, path, i + 1);
    }
}

/// Every step keeps what holds of every simulation, and never changes which
/// object the simulation started on.
pub proof fn lemma_step_inv(answers: Answers, root: Seq<char>, st: SimModel)
    requires
        sim_inv(st),
        sim_found(answers, st),
    ensures
        match sim_step(answers, root, st) {
            StepModel::Next(next) => sim_inv(next) && sim_found(answers, next)
                && next.loaded.len() >= st.loaded.len() && next.loaded[0].object
                == st.loaded[0].object && (next.loaded.len() > st.loaded.len() || next.current
                > st.current || (next.current == st.current && next.links.len() > st.links.len()
                && next.loaded[st.current].object == st.loaded[st.current].object)),
            _ => true,
        },
{
    if st.current < st.loaded.len() && st.links.len()
        < st.loaded[st.current].object.elf.needed.len() {
        let name = next_name(st);
        if find_name(st.loaded, name, 0) is None {
            let paths = candidates(root, st.loaded, st.current, name);
            let target = st.loaded[st.current].object.elf;
            lemma_search_found(answers, paths, target, 0);
            if let SearchModel::Found(o, origin) = search_from(answers, paths, target, 0) {
                lemma_find_path(st.loaded, o.path, 0);
                let next = found_step(st, o, origin);
                assert forall|k: int| 0 <= k < st.loaded.len() implies (
                #[trigger] next.loaded[k]).object == st.loaded[k].object && next.loaded[k].loader
                    == st.loaded[k].loader by {}
            }
        }
    } else if st.current < st.loaded.len() {
        let next = sim_step(answers, root, st)->Next_0;
        assert forall|k: int| 0 <= k < st.loaded.len() implies (#[trigger] next.loaded[k]).object
            == st.loaded[k].object && next.loaded[k].loader == st.loaded[k].loader by {}
    }
}

impl Bundle {
    proof fn lemma_answers_finite(&self)
        requires
            self.wf(),
        ensures
            self@.answers.dom().finite(),
    {
        self.answers.lemma_sorted_keys();
        assert(self@.answers.dom() =~= self.answers@.dom());
    }

    /// Runs a simulation as far as the answers go. Gives the path that must be
    /// opened before it can go on, or `None` when everything is loaded.
    pub fn simulate(&self, sim: &mut Simulation) -> (r: Option<String>)
        requires
            self.wf(),
            sim_inv(old(sim)@),
            sim_found(self@.answers, old(sim)@),
        ensures
            sim_inv(final(sim)@),
            sim_found(self@.answers, final(sim)@),
            exists|n: nat|
                final(sim)@ == #[trigger] sim_steps(self@.answers, self@.root, old(sim)@, n),
            match r {
                Some(path) => sim_step(self@.answers, self@.root, final(sim)@) == StepModel::Ask(
                    path@,
                ),
                None => sim_step(self@.answers, self@.root, final(sim)@) == StepModel::Done,
            },
    {
        let ghost answers = self@.answers;
        let ghost root = self@.root;
        let ghost mut n: nat = 0;
        proof {
            self.lemma_answers_finite();
            lemma_found_paths_finite(answers);
        }
        assert(sim@ == sim_steps(answers, root, old(sim)@, n));
        loop
            invariant
                self.wf(),
                answers == self@.answers,
                root == self@.root,
                answers.dom().finite(),
                found_paths(answers).finite(),
                sim_inv(sim@),
                sim_found(answers, sim@),
                sim@ == sim_steps(answers, root, old(sim)@, n),
            decreases
                loadable(answers, sim@).len() - sim@.loaded.len(),
                sim@.loaded.len() - sim@.current,
                sim@.loaded[sim@.current].object.elf.needed.len() - sim@.links.len(),
        {
            let ghost st = sim@;
            let progress = self.step(sim);
            match progress {
                Progress::Done => {
                    return None;
                },
                Progress::Ask(path) => {
                    return Some(path);
                },
                Progress::Next => {
                    proof {
                        lemma_step_inv(answers, root, st);
                        lemma_load_bound(answers, st);
                        lemma_load_bound(answers, sim@);
                        assert(sim_steps(answers, root, old(sim)@, n + 1) == sim@);
                        n = n + 1;
                    }
                },
            }
        }
    }
}

} // verus!
