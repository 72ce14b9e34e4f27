//! Collecting the regular files of a directory tree from the listings of its
//! directories.

use crate::paths::{components, components_of, list_before, Components};
use crate::sort::{is_stable_order, lemma_stable_view, sort_stably};
use crate::text::texts;
use vstd::prelude::*;

verus! {

/// What a directory entry is, symlinks not followed.
#[derive(Debug)]
pub enum Kind {
    Directory,
    File,
    /// A symlink, a device or the like.
    Other,
    /// It could not be found out, with the reason.
    Unknown(String),
}

/// A walk through a directory tree: the directories still to be listed, the files
/// found, and what could not be read.
#[derive(Debug)]
pub struct Walk {
    pending: Vec<String>,
    files: Vec<String>,
    errors: Vec<(String, String)>,
}

/// A walk with its paths as text.
pub struct WalkModel {
    pub pending: Seq<Seq<char>>,
    pub files: Seq<Seq<char>>,
    pub errors: Seq<(Seq<char>, Seq<char>)>,
}

/// Paths with the reasons why they could not be read.
pub open spec fn reasons(errors: Seq<(String, String)>) -> Seq<(Seq<char>, Seq<char>)> {
    errors.map_values(|e: (String, String)| (e.0@, e.1@))
}

impl View for Walk {
    type V = WalkModel;

    closed spec fn view(&self) -> WalkModel {
        WalkModel {
            pending: texts(self.pending@),
            files: texts(self.files@),
            errors: reasons(self.errors@),
        }
    }
}

/// The walk after an entry of a directory has been looked at.
pub open spec fn with_entry(w: WalkModel, path: Seq<char>, kind: Kind) -> WalkModel {
    match kind {
        Kind::Directory => WalkModel { pending: w.pending.push(path), ..w },
        Kind::File => WalkModel { files: w.files.push(path), ..w },
        Kind::Other => w,
        Kind::Unknown(message) => WalkModel { errors: w.errors.push((path, message@)), ..w },
    }
}

/// Paths in the order of their components.
pub open spec fn in_path_order(files: Seq<Seq<char>>, r: Seq<Seq<char>>) -> bool {
    is_stable_order(
        files,
        r,
        |p: Seq<char>| components(p),
        |a: Seq<Seq<char>>, b: Seq<Seq<char>>| list_before(a, b),
    )
}

impl Walk {
    /// A walk that starts with one directory to list.
    pub fn new(dir: String) -> (r: Walk)
        ensures
            r@ == (WalkModel { pending: seq![dir@], files: Seq::empty(), errors: Seq::empty() }),
    {
        let ghost start = dir@;
        let mut pending: Vec<String> = Vec::new();
        pending.push(dir);
        let r = Walk { pending, files: Vec::new(), errors: Vec::new() };
        assert(r@.pending =~= seq![start]);
        assert(r@.files =~= Seq::<Seq<char>>::empty());
        assert(r@.errors =~= Seq::<(Seq<char>, Seq<char>)>::empty());
        r
    }

    /// The directory to list next: the one that was found last.
    pub fn next_dir(&mut self) -> (r: Option<String>)
        ensures
            match r {
                Some(dir) => old(self)@.pending.len() > 0 && dir@ == old(self)@.pending.last()
                    && final(self)@ == (WalkModel {
                    pending: old(self)@.pending.drop_last(),
                    ..old(self)@
                }),
                None => old(self)@.pending.len() == 0 && final(self)@ == old(self)@,
            },
    {
        let r = self.pending.pop();
        assert(r is Some ==> self@.pending =~= old(self)@.pending.drop_last());
        r
    }

    /// Takes note of an entry of a directory.
    pub fn add_entry(&mut self, path: String, kind: Kind)
        ensures
            final(self)@ == with_entry(old(self)@, path@, kind),
    {
        let ghost p = path@;
        match kind {
            Kind::Directory => {
                self.pending.push(path);
                assert(self@.pending =~= old(self)@.pending.push(p));
            },
            Kind::File => {
                self.files.push(path);
                assert(self@.files =~= old(self)@.files.push(p));
            },
            Kind::Other => {},
            Kind::Unknown(message) => {
                self.add_error(path, message);
            },
        }
    }

    /// Takes note of something that could not be read.
    pub fn add_error(&mut self, path: String, message: String)
        ensures
            final(self)@ == (WalkModel {
                errors: old(self)@.errors.push((path@, message@)),
                ..old(self)@
            }),
    {
        let ghost p = path@;
        let ghost m = message@;
        self.errors.push((path, message));
        assert(self@.errors =~= old(self)@.errors.push((p, m)));
    }

    /// The files that were found, in order, and what could not be read.
    pub fn finish(self) -> (r: (Vec<String>, Vec<(String, String)>))
        ensures
            in_path_order(self@.files, texts(r.0@)),
            reasons(r.1@) == self@.errors,
    {
        let ghost all = self@.files;
        let Walk { pending: _, files, errors } = self;
        let mut items: Vec<(Components, String)> = Vec::new();
        let ghost f = |p: (Components, String)| p.1@;
        let ghost key = |p: Seq<char>| components(p);
        for file in it: files
            invariant
                it.seq() == files@,
                items@.len() == it.index(),
                forall|i: int|
                    0 <= i < items@.len() ==> (#[trigger] items@[i]).0@ == components(
                        items@[i].1@,
                    ) && items@[i].1@ == files@[i]@,
        {
            let parts = components_of(file.as_str());
            items.push((Components { parts }, file));
        }
        assert(items@.map_values(f) =~= all);
        let sorted = sort_stably(items);
        proof {
            lemma_stable_view(items@, sorted@, f, key);
        }
        let mut out: Vec<String> = Vec::new();
        for item in it: sorted
            invariant
                it.seq() == sorted@,
                out@.len() == it.index(),
                forall|i: int| 0 <= i < out@.len() ==> (#[trigger] out@[i])@ == sorted@[i].1@,
        {
            let (_, file) = item;
            out.push(file);
        }
        assert(texts(out@) =~= sorted@.map_values(f));
        (out, errors)
    }
}

} // verus!
