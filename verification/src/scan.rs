//! Builds a [`Report`] for a directory or a single binary.

use crate::analysis::{
    analysis, analyze, confidence_before, relate_confidence, Confidence, Evidence, EvidenceModel,
    ObjectAnalysis,
};
use crate::capdb::{cap_with_id, CapDb, CapModel};
use crate::elf::{class_text, error_text, ElfError, ElfFile};
use crate::elf_model::{elf_model, text_of};
use crate::loader::{
    candidates, is_answer, is_load_list, next_name, opened, sim_found, sim_inv, sim_start, sim_step,
    sim_steps, Answers, Bundle, BundleModel, Contents, LinkModel, LoadedModel, LoadedObject, Object,
    ObjectModel, SimModel, Simulation, StepModel,
};
use crate::loader_laws::{
    law_load_lists_are_sound, law_load_lists_are_unique, law_load_lists_stay,
    law_search_finds_the_first_fit, law_simulations_resume, lemma_steps_add, resolved_rightly,
};
use crate::order::{
    in_order, lemma_text_connected, lemma_text_irreflexive, lemma_text_transitive, relate_text,
    text_before, views, Ordered, Relation,
};
use crate::paths::{is_inside, parent, parent_of, relative_path, relative_to};
use crate::sort::{is_stable_order, lemma_stable_view, sort_stably};
use crate::text::{copied, owned, same_text, texts};
use crate::textmap::TextMap;
use std::rc::Rc;
use vstd::prelude::*;

verus! {

#[derive(Debug, Clone, PartialEq, Eq)]
pub struct Report {
    pub root: String,
    pub objects: Vec<ObjectReport>,
    pub findings: Vec<Finding>,
    pub errors: Vec<FileError>,
}

#[derive(Debug, Clone, PartialEq, Eq)]
pub struct ObjectReport {
    pub path: String,
    pub executable: bool,
    pub format: String,
    pub machine: u16,
    pub soname: Option<String>,
    pub rpath: Option<String>,
    pub runpath: Option<String>,
    pub needed: Vec<NeededReport>,
    pub imports_dynamic_loader: bool,
    pub dlopen_candidates: Vec<String>,
}

#[derive(Debug, Clone, PartialEq, Eq)]
pub struct NeededReport {
    pub name: String,
    /// Bundle-relative path of the object ld.so would load, or `None` when the
    /// search leaves the bundle (a system library, or a missing one).
    pub resolved: Option<String>,
}

#[derive(Debug, Clone, PartialEq, Eq)]
pub struct Finding {
    pub capability: String,
    pub title: String,
    /// The bundled object that imports the symbol (or holds the string).
    pub object: String,
    pub symbol: String,
    pub version: Option<String>,
    pub confidence: Confidence,
    /// Load chains that bring `object` in, each starting at the object ld.so
    /// was started on. Executables are simulated first, so chains from an
    /// executable come before chains from libraries nothing links to.
    pub reached_via: Vec<Vec<String>>,
}

#[derive(Debug, Clone, PartialEq, Eq)]
pub struct FileError {
    pub path: String,
    pub message: String,
}

/// A report with its words as text.
pub struct ReportModel {
    pub root: Seq<char>,
    pub objects: Seq<ObjectReportModel>,
    pub findings: Seq<FindingModel>,
    pub errors: Seq<FileErrorModel>,
}

pub struct ObjectReportModel {
    pub path: Seq<char>,
    pub executable: bool,
    pub format: Seq<char>,
    pub machine: u16,
    pub soname: Option<Seq<char>>,
    pub rpath: Option<Seq<char>>,
    pub runpath: Option<Seq<char>>,
    pub needed: Seq<NeededModel>,
    pub imports_dynamic_loader: bool,
    pub dlopen_candidates: Seq<Seq<char>>,
}

pub struct NeededModel {
    pub name: Seq<char>,
    pub resolved: Option<Seq<char>>,
}

pub struct FindingModel {
    pub capability: Seq<char>,
    pub title: Seq<char>,
    pub object: Seq<char>,
    pub symbol: Seq<char>,
    pub version: Option<Seq<char>>,
    pub confidence: Confidence,
    pub reached_via: Seq<Seq<Seq<char>>>,
}

pub struct FileErrorModel {
    pub path: Seq<char>,
    pub message: Seq<char>,
}

/// A list of load chains.
pub open spec fn chain_texts(chains: Seq<Vec<String>>) -> Seq<Seq<Seq<char>>> {
    chains.map_values(|c: Vec<String>| texts(c@))
}

impl View for NeededReport {
    type V = NeededModel;

    open spec fn view(&self) -> NeededModel {
        NeededModel { name: self.name@, resolved: text_of(self.resolved) }
    }
}

impl View for ObjectReport {
    type V = ObjectReportModel;

    open spec fn view(&self) -> ObjectReportModel {
        ObjectReportModel {
            path: self.path@,
            executable: self.executable,
            format: self.format@,
            machine: self.machine,
            soname: text_of(self.soname),
            rpath: text_of(self.rpath),
            runpath: text_of(self.runpath),
            needed: views(self.needed@),
            imports_dynamic_loader: self.imports_dynamic_loader,
            dlopen_candidates: texts(self.dlopen_candidates@),
        }
    }
}

impl View for Finding {
    type V = FindingModel;

    open spec fn view(&self) -> FindingModel {
        FindingModel {
            capability: self.capability@,
            title: self.title@,
            object: self.object@,
            symbol: self.symbol@,
            version: text_of(self.version),
            confidence: self.confidence,
            reached_via: chain_texts(self.reached_via@),
        }
    }
}

impl View for FileError {
    type V = FileErrorModel;

    open spec fn view(&self) -> FileErrorModel {
        FileErrorModel { path: self.path@, message: self.message@ }
    }
}

impl View for Report {
    type V = ReportModel;

    open spec fn view(&self) -> ReportModel {
        ReportModel {
            root: self.root@,
            objects: views(self.objects@),
            findings: views(self.findings@),
            errors: views(self.errors@),
        }
    }
}

#[derive(Debug)]
pub enum ScanError {
    Io { path: String, message: String },
    OutsideRoot { path: String, root: String },
    NotElf(String),
    Parse { path: String, source: ElfError },
}

/// An error with its words as text.
pub enum ScanErrorModel {
    Io { path: Seq<char>, message: Seq<char> },
    OutsideRoot { path: Seq<char>, root: Seq<char> },
    NotElf(Seq<char>),
    Parse { path: Seq<char>, source: ElfError },
}

impl View for ScanError {
    type V = ScanErrorModel;

    open spec fn view(&self) -> ScanErrorModel {
        match *self {
            ScanError::Io { path, message } => ScanErrorModel::Io {
                path: path@,
                message: message@,
            },
            ScanError::OutsideRoot { path, root } => ScanErrorModel::OutsideRoot {
                path: path@,
                root: root@,
            },
            ScanError::NotElf(path) => ScanErrorModel::NotElf(path@),
            ScanError::Parse { path, source } => ScanErrorModel::Parse { path: path@, source },
        }
    }
}

/// The text of an error, as shown to the user.
pub open spec fn scan_error_text(e: ScanErrorModel) -> Seq<char> {
    match e {
        ScanErrorModel::Io { path, message } => path + ": "@ + message,
        ScanErrorModel::OutsideRoot { path, root } => path + " is not inside root "@ + root,
        ScanErrorModel::NotElf(path) => path + ": not an ELF file"@,
        ScanErrorModel::Parse { path, source } => path + ": "@ + error_text(source),
    }
}

impl ScanError {
    /// A description of the error for the user.
    pub fn message(&self) -> (r: String)
        ensures
            r@ == scan_error_text(self@),
    {
        match self {
            ScanError::Io { path, message } => {
                let mut out = path.clone();
                out.append(": ");
                out.append(message.as_str());
                out
            },
            ScanError::OutsideRoot { path, root } => {
                let mut out = path.clone();
                out.append(" is not inside root ");
                out.append(root.as_str());
                out
            },
            ScanError::NotElf(path) => {
                let mut out = path.clone();
                out.append(": not an ELF file");
                out
            },
            ScanError::Parse { path, source } => {
                let mut out = path.clone();
                out.append(": ");
                out.append(source.message().as_str());
                out
            },
        }
    }
}

/// The directory that dependencies are resolved in: the one that was asked for,
/// or the target itself, or the directory of a target that is a file.
pub open spec fn root_of(target: Seq<char>, root: Option<Seq<char>>, is_dir: bool) -> Seq<char> {
    match root {
        Some(r) => r,
        None => if is_dir {
            target
        } else {
            match parent(target) {
                Some(dir) if dir.len() > 0 => dir,
                _ => "."@,
            }
        },
    }
}

pub fn scan_root(target: &str, root: Option<&str>, is_dir: bool) -> (r: String)
    ensures
        r@ == root_of(
            target@,
            match root {
                Some(r) => Some(r@),
                None => None,
            },
            is_dir,
        ),
{
    if let Some(r) = root {
        return owned(r);
    }
    if is_dir {
        return owned(target);
    }
    match parent_of(target) {
        Some(dir) if dir.as_str().unicode_len() > 0 => dir,
        _ => owned("."),
    }
}

/// Checks that a target lies inside the root; both paths are canonical.
pub fn check_inside(target: &str, canonical: &str, root: &str) -> (r: Result<(), ScanError>)
    ensures
        match r {
            Ok(_) => is_inside(root@, canonical@),
            Err(e) => !is_inside(root@, canonical@) && e@ == (ScanErrorModel::OutsideRoot {
                path: target@,
                root: root@,
            }),
        },
{
    if relative_path(root, canonical).is_some() {
        Ok(())
    } else {
        Err(ScanError::OutsideRoot { path: owned(target), root: owned(root) })
    }
}

/// Checks that a target that is a file is a readable ELF file.
pub fn check_binary(target: &str, data: &[u8]) -> (r: Result<(), ScanError>)
    ensures
        match r {
            Ok(_) => elf_model(data@) is Ok,
            Err(e) => match elf_model(data@) {
                Ok(_) => false,
                Err(ElfError::NotElf) => e@ == ScanErrorModel::NotElf(target@),
                Err(source) => e@ == (ScanErrorModel::Parse { path: target@, source }),
            },
        },
{
    match ElfFile::parse(data) {
        Ok(_) => Ok(()),
        Err(ElfError::NotElf) => Err(ScanError::NotElf(owned(target))),
        Err(source) => Err(ScanError::Parse { path: owned(target), source }),
    }
}

/// The chain of objects that loads the `k`th, from the first on.
pub open spec fn load_chain(loaded: Seq<LoadedModel>, k: int) -> Seq<Seq<char>>
    decreases k,
{
    match loaded[k].loader {
        Some(j) if 0 <= j < k => load_chain(loaded, j).push(loaded[k].object.rel),
        _ => seq![loaded[k].object.rel],
    }
}

/// What is known of an object that a simulation reached.
pub struct ReachedModel {
    pub object: ObjectModel,
    pub chains: Seq<Seq<Seq<char>>>,
    pub needed: Seq<NeededModel>,
}

/// The objects that the simulations reached, by their path relative to the root.
pub type StateModel = Map<Seq<char>, ReachedModel>;

/// The links of an object, with the paths that they lead to.
pub open spec fn needed_models(loaded: Seq<LoadedModel>, links: Seq<LinkModel>) -> Seq<
    NeededModel,
> {
    links.map_values(
        |l: LinkModel|
            NeededModel {
                name: l.name,
                resolved: match l.resolved {
                    Some(j) => Some(loaded[j].object.rel),
                    None => None,
                },
            },
    )
}

/// The state with the `k`th object of a load list taken note of. Resolution can
/// differ per chain because RPATH is inherited; the first simulation (that of an
/// executable, when there is one) is kept.
pub open spec fn with_reached(st: StateModel, loaded: Seq<LoadedModel>, k: int) -> StateModel {
    let rel = loaded[k].object.rel;
    let chain = load_chain(loaded, k);
    if st.contains_key(rel) {
        if st[rel].chains.contains(chain) {
            st
        } else {
            st.insert(rel, ReachedModel { chains: st[rel].chains.push(chain), ..st[rel] })
        }
    } else {
        st.insert(
            rel,
            ReachedModel {
                object: loaded[k].object,
                chains: seq![chain],
                needed: needed_models(loaded, loaded[k].needed),
            },
        )
    }
}

/// The state with the first `n` objects of a load list taken note of.
pub open spec fn with_loaded(st: StateModel, loaded: Seq<LoadedModel>, n: int) -> StateModel
    decreases n,
{
    if n <= 0 {
        st
    } else {
        with_reached(with_loaded(st, loaded, n - 1), loaded, n - 1)
    }
}

/// What is known of an object that a simulation reached.
#[derive(Debug)]
pub struct Reached {
    pub object: Rc<Object>,
    pub chains: Vec<Vec<String>>,
    pub needed: Vec<NeededReport>,
}

impl View for Reached {
    type V = ReachedModel;

    open spec fn view(&self) -> ReachedModel {
        ReachedModel {
            object: self.object@,
            chains: chain_texts(self.chains@),
            needed: views(self.needed@),
        }
    }
}

/// The objects that the simulations reached.
#[derive(Debug)]
pub struct State {
    index: TextMap<usize>,
    entries: Vec<Reached>,
}

impl View for State {
    type V = StateModel;

    closed spec fn view(&self) -> StateModel {
        self.index@.map_values(|i: usize| self.entries@[i as int]@)
    }
}

/// A load list whose loaders and links point into it.
pub open spec fn points_inside(loaded: Seq<LoadedModel>) -> bool {
    &&& forall|k: int|
        0 <= k < loaded.len() ==> ((#[trigger] loaded[k]).loader matches Some(j) ==> 0 <= j < k)
    &&& forall|k: int|
        0 <= k < loaded.len() ==> links_inside(loaded, (#[trigger] loaded[k]).needed)
}

pub open spec fn links_inside(loaded: Seq<LoadedModel>, links: Seq<LinkModel>) -> bool {
    forall|m: int|
        0 <= m < links.len() ==> ((#[trigger] links[m]).resolved matches Some(j) ==> 0 <= j
            < loaded.len())
}

/// The chain of objects that loads the `k`th, from the first on.
fn chain_to(loaded: &Vec<LoadedObject>, k: usize) -> (r: Vec<String>)
    requires
        k < loaded@.len(),
        points_inside(views(loaded@)),
    ensures
        texts(r@) == load_chain(views(loaded@), k as int),
{
    let ghost model = views(loaded@);
    let mut chain: Vec<String> = Vec::new();
    let mut m: usize = k;
    assert(load_chain(model, k as int) =~= load_chain(model, m as int) + texts(chain@));
    loop
        invariant
            m < loaded@.len(),
            model == views(loaded@),
            points_inside(model),
            load_chain(model, k as int) == load_chain(model, m as int) + texts(chain@),
        decreases m,
    {
        let l = &loaded[m];
        assert(model[m as int] == l@);
        let ghost rel = l.object.rel@;
        let ghost rest = texts(chain@);
        chain.insert(0, l.object.rel.clone());
        assert(texts(chain@) =~= seq![rel] + rest);
        match l.loader {
            Some(j) => {
                assert(load_chain(model, j as int).push(rel) + rest =~= load_chain(model, j as int)
                    + texts(chain@));
                m = j;
            },
            None => {
                assert(load_chain(model, m as int) + rest =~= texts(chain@));
                return chain;
            },
        }
    }
}

fn same_list(a: &Vec<String>, b: &Vec<String>) -> (r: bool)
    ensures
        r == (texts(a@) == texts(b@)),
{
    if a.len() != b.len() {
        assert(texts(a@).len() != texts(b@).len());
        return false;
    }
    let mut i: usize = 0;
    while i < a.len()
        invariant
            i <= a@.len() == b@.len(),
            forall|j: int| 0 <= j < i ==> (#[trigger] texts(a@)[j]) == texts(b@)[j],
        decreases a@.len() - i,
    {
        assert(texts(a@)[i as int] == a@[i as int]@ && texts(b@)[i as int] == b@[i as int]@);
        if !same_text(a[i].as_str(), b[i].as_str()) {
            return false;
        }
        i = i + 1;
    }
    assert(texts(a@) =~= texts(b@));
    true
}

fn has_chain(chains: &Vec<Vec<String>>, chain: &Vec<String>) -> (r: bool)
    ensures
        r == chain_texts(chains@).contains(texts(chain@)),
{
    let mut i: usize = 0;
    while i < chains.len()
        invariant
            i <= chains@.len(),
            forall|j: int| 0 <= j < i ==> (#[trigger] chain_texts(chains@)[j]) != texts(chain@),
        decreases chains@.len() - i,
    {
        assert(chain_texts(chains@)[i as int] == texts(chains@[i as int]@));
        if same_list(&chains[i], chain) {
            return true;
        }
        i = i + 1;
    }
    false
}

/// The links of an object, with the paths that they lead to.
fn needed_reports(loaded: &Vec<LoadedObject>, k: usize) -> (r: Vec<NeededReport>)
    requires
        k < loaded@.len(),
        points_inside(views(loaded@)),
    ensures
        views(r@) == needed_models(views(loaded@), views(loaded@)[k as int].needed),
{
    let ghost model = views(loaded@);
    let links = &loaded[k].needed;
    let ghost all = model[k as int].needed;
    assert(model[k as int] == loaded@[k as int]@);
    assert(all == views(links@));
    let mut out: Vec<NeededReport> = Vec::new();
    let mut i: usize = 0;
    while i < links.len()
        invariant
            i <= links@.len(),
            model == views(loaded@),
            all == views(links@),
            links_inside(model, all),
            out@.len() == i,
            forall|j: int|
                0 <= j < i ==> (#[trigger] out@[j])@ == needed_models(model, all)[j],
        decreases links@.len() - i,
    {
        let link = &links[i];
        assert(all[i as int] == link@);
        let resolved = match link.resolved {
            Some(j) => {
                assert(model[j as int] == loaded@[j as int]@);
                Some(loaded[j].object.rel.clone())
            },
            None => None,
        };
        out.push(NeededReport { name: link.name.clone(), resolved });
        i = i + 1;
    }
    assert(views(out@) =~= needed_models(model, all));
    out
}

impl State {
    pub closed spec fn wf(&self) -> bool {
        &&& self.index.wf()
        &&& forall|k: Seq<char>| #[trigger]
            self.index@.contains_key(k) ==> self.index@[k] < self.entries@.len()
        &&& forall|a: Seq<char>, b: Seq<char>|
            self.index@.contains_key(a) && self.index@.contains_key(b)
                && #[trigger] self.index@[a] == #[trigger] self.index@[b] ==> a == b
    }

    pub fn new() -> (r: State)
        ensures
            r.wf(),
            r@ == Map::<Seq<char>, ReachedModel>::empty(),
    {
        let r = State { index: TextMap::new(), entries: Vec::new() };
        assert(r@ =~= Map::<Seq<char>, ReachedModel>::empty());
        r
    }

    /// Whether an object has been reached.
    pub fn has(&self, rel: &str) -> (r: bool)
        requires
            self.wf(),
        ensures
            r == self@.contains_key(rel@),
    {
        self.index.has(rel)
    }

    /// Takes note of the `k`th object of a load list.
    fn record_one(&mut self, loaded: &Vec<LoadedObject>, k: usize)
        requires
            old(self).wf(),
            k < loaded@.len(),
            points_inside(views(loaded@)),
        ensures
            final(self).wf(),
            final(self)@ == with_reached(old(self)@, views(loaded@), k as int),
    {
        let ghost model = views(loaded@);
        let ghost before = self@;
        let l = &loaded[k];
        assert(model[k as int] == l@);
        let ghost rel = l.object.rel@;
        let chain = chain_to(loaded, k);
        let known: Option<usize> = match self.index.get(l.object.rel.as_str()) {
            Some(at) => Some(*at),
            None => None,
        };
        match known {
            Some(at) => {
                assert(before[rel] == self.entries@[at as int]@);
                if !has_chain(&self.entries[at].chains, &chain) {
                    let ghost c = texts(chain@);
                    let ghost chains = before[rel].chains;
                    self.entries[at].chains.push(chain);
                    proof {
                        assert(self.entries@[at as int]@.chains =~= chains.push(c));
                        assert forall|x: Seq<char>| #[trigger]
                            self.index@.contains_key(x) && x != rel implies self@[x]
                            == before[x] by {
                            assert(self.index@[x] != self.index@[rel]);
                        }
                        assert(self@ =~= with_reached(before, model, k as int));
                    }
                }
            },
            None => {
                let ghost c = texts(chain@);
                let needed = needed_reports(loaded, k);
                let mut chains: Vec<Vec<String>> = Vec::new();
                chains.push(chain);
                let reached = Reached { object: Rc::clone(&l.object), chains, needed };
                assert(reached@.chains =~= seq![c]);
                let at: usize = self.entries.len();
                let ghost index = self.index@;
                self.entries.push(reached);
                self.index.insert(l.object.rel.clone(), at);
                proof {
                    assert forall|x: Seq<char>| #[trigger]
                        index.contains_key(x) implies self.index@.contains_key(x) && self.index@[x]
                        == index[x] && index[x] < at && x != rel by {}
                    assert(self@ =~= with_reached(before, model, k as int));
                }
            },
        }
    }

    /// Takes note of a load list.
    pub fn record(&mut self, loaded: &Vec<LoadedObject>)
        requires
            old(self).wf(),
            points_inside(views(loaded@)),
        ensures
            final(self).wf(),
            final(self)@ == with_loaded(old(self)@, views(loaded@), loaded@.len() as int),
    {
        let mut i: usize = 0;
        while i < loaded.len()
            invariant
                i <= loaded@.len(),
                self.wf(),
                points_inside(views(loaded@)),
                self@ == with_loaded(old(self)@, views(loaded@), i as int),
            decreases loaded@.len() - i,
        {
            self.record_one(loaded, i);
            i = i + 1;
        }
    }
}

/// The files that a scan starts from.
pub struct CollectionModel {
    pub bundle: BundleModel,
    pub objects: Seq<ObjectModel>,
}

/// The files that a scan starts from: the bundle, and the objects among them.
#[derive(Debug)]
pub struct Collection {
    bundle: Bundle,
    objects: Vec<Rc<Object>>,
}

impl View for Collection {
    type V = CollectionModel;

    closed spec fn view(&self) -> CollectionModel {
        CollectionModel { bundle: self.bundle@, objects: views(self.objects@) }
    }
}

/// The collection after a file has been opened: an object joins it.
pub open spec fn with_file(
    c: CollectionModel,
    path: Seq<char>,
    canonical: Option<Seq<char>>,
    contents: Contents,
) -> CollectionModel {
    let (bundle, object) = opened(c.bundle, path, canonical, contents);
    CollectionModel {
        bundle,
        objects: match object {
            Some(o) => c.objects.push(o),
            None => c.objects,
        },
    }
}

impl Collection {
    pub closed spec fn wf(&self) -> bool {
        self.bundle.wf()
    }

    pub fn new(bundle: Bundle) -> (r: Collection)
        requires
            bundle.wf(),
        ensures
            r.wf(),
            r@ == (CollectionModel { bundle: bundle@, objects: Seq::empty() }),
    {
        let r = Collection { bundle, objects: Vec::new() };
        assert(r@.objects =~= Seq::<ObjectModel>::empty());
        r
    }

    pub fn bundle(&self) -> (r: &Bundle)
        requires
            self.wf(),
        ensures
            r.wf(),
            r@ == self@.bundle,
    {
        &self.bundle
    }

    /// Opens a file; an ELF file joins the collection.
    pub fn add_file(&mut self, path: &str, canonical: Option<&str>, contents: &Contents)
        requires
            old(self).wf(),
        ensures
            final(self).wf(),
            final(self)@ == with_file(
                old(self)@,
                path@,
                match canonical {
                    Some(c) => Some(c@),
                    None => None,
                },
                *contents,
            ),
    {
        let ghost before = self@.objects;
        if let Some(object) = self.bundle.open(path, canonical, contents) {
            let ghost o = object@;
            self.objects.push(object);
            assert(self@.objects =~= before.push(o));
        }
    }

    /// Takes note of a path that could not be read.
    pub fn add_error(&mut self, path: String, message: String)
        requires
            old(self).wf(),
        ensures
            final(self).wf(),
            final(self)@ == (CollectionModel {
                bundle: BundleModel {
                    errors: old(self)@.bundle.errors.insert(
                        match relative_to(old(self)@.bundle.root, path@) {
                            Some(rel) => rel,
                            None => path@,
                        },
                        message@,
                    ),
                    ..old(self)@.bundle
                },
                ..old(self)@
            }),
    {
        let rel = match self.bundle.relative(path.as_str()) {
            Some(rel) => rel,
            None => path,
        };
        self.bundle.record_error(rel, message);
    }
}

/// Executables first, after them the libraries, each in the order given.
pub open spec fn scan_order(objects: Seq<ObjectModel>) -> Seq<ObjectModel> {
    objects.filter(|o: ObjectModel| o.elf.is_executable()) + objects.filter(
        |o: ObjectModel| !o.elf.is_executable(),
    )
}

/// Whether a simulation is started on an object: on every executable, and on a
/// library that nothing has loaded yet.
pub open spec fn is_started(st: StateModel, o: ObjectModel) -> bool {
    o.elf.is_executable() || !st.contains_key(o.rel)
}

/// The load list of an object.
pub open spec fn load_list(answers: Answers, root: Seq<char>, entry: ObjectModel) -> Seq<
    LoadedModel,
> {
    choose|list: Seq<LoadedModel>| is_load_list(answers, root, entry, list)
}

/// What the simulations of the first `n` objects reach.
pub open spec fn recorded(
    answers: Answers,
    root: Seq<char>,
    entries: Seq<ObjectModel>,
    n: int,
) -> StateModel
    decreases n,
{
    if n <= 0 {
        Map::empty()
    } else {
        let st = recorded(answers, root, entries, n - 1);
        let e = entries[n - 1];
        if is_started(st, e) {
            let list = load_list(answers, root, e);
            with_loaded(st, list, list.len() as int)
        } else {
            st
        }
    }
}

/// The simulations of the first `n` objects have come to their end.
pub open spec fn settled(
    answers: Answers,
    root: Seq<char>,
    entries: Seq<ObjectModel>,
    n: int,
) -> bool {
    forall|j: int|
        0 <= j < n && is_started(recorded(answers, root, entries, j), #[trigger] entries[j])
            ==> is_load_list(answers, root, entries[j], load_list(answers, root, entries[j]))
}

/// What was settled stays settled, and the same, when more is known.
pub proof fn lemma_recorded_stays(
    a: Answers,
    b: Answers,
    root: Seq<char>,
    entries: Seq<ObjectModel>,
    n: int,
)
    requires
        a.submap_of(b),
        0 <= n <= entries.len(),
        settled(a, root, entries, n),
    ensures
        settled(b, root, entries, n),
        recorded(b, root, entries, n) == recorded(a, root, entries, n),
    decreases n,
{
    if n > 0 {
        lemma_recorded_stays(a, b, root, entries, n - 1);
        let e = entries[n - 1];
        if is_started(recorded(a, root, entries, n - 1), e) {
            let list = load_list(a, root, e);
            law_load_lists_stay(a, b, root, e, list);
            law_load_lists_are_unique(b, root, e, list, load_list(b, root, e));
        }
        assert forall|j: int|
            0 <= j < n && is_started(
                recorded(b, root, entries, j),
                #[trigger] entries[j],
            ) implies is_load_list(b, root, entries[j], load_list(b, root, entries[j])) by {}
    }
}

/// A scan under way.
pub struct ScanModel {
    pub bundle: BundleModel,
    pub entries: Seq<ObjectModel>,
    /// How many of the entries have been dealt with.
    pub next: int,
    pub state: StateModel,
}

/// A scan under way: the objects to start simulations on, and what those have
/// reached so far.
#[derive(Debug)]
pub struct Scan {
    bundle: Bundle,
    entries: Vec<Rc<Object>>,
    next: usize,
    sim: Option<Simulation>,
    state: State,
}

impl View for Scan {
    type V = ScanModel;

    closed spec fn view(&self) -> ScanModel {
        ScanModel {
            bundle: self.bundle@,
            entries: views(self.entries@),
            next: self.next as int,
            state: self.state@,
        }
    }
}

/// What holds of every scan: the state is what the simulations dealt with so far
/// reach.
pub open spec fn scan_inv(m: ScanModel) -> bool {
    &&& 0 <= m.next <= m.entries.len()
    &&& settled(m.bundle.answers, m.bundle.root, m.entries, m.next)
    &&& m.state == recorded(m.bundle.answers, m.bundle.root, m.entries, m.next)
}

/// The simulation of an entry needs to know what a path holds.
pub open spec fn is_asked(
    answers: Answers,
    root: Seq<char>,
    entry: ObjectModel,
    path: Seq<char>,
) -> bool {
    exists|n: nat|
        sim_step(answers, root, #[trigger] sim_steps(answers, root, sim_start(entry), n))
            == StepModel::Ask(path)
}

/// A simulation is on the way from an entry to its load list.
#[verifier::opaque]
spec fn on_way(answers: Answers, root: Seq<char>, entry: ObjectModel, st: SimModel) -> bool {
    &&& sim_inv(st)
    &&& sim_found(answers, st)
    &&& exists|n: nat| #[trigger] sim_steps(answers, root, sim_start(entry), n) == st
}

proof fn lemma_on_way_stays(
    a: Answers,
    b: Answers,
    root: Seq<char>,
    entry: ObjectModel,
    st: SimModel,
)
    requires
        a.submap_of(b),
        on_way(a, root, entry, st),
    ensures
        on_way(b, root, entry, st),
{
    reveal(on_way);
    let n = choose|n: nat| #[trigger] sim_steps(a, root, sim_start(entry), n) == st;
    let m = law_simulations_resume(a, b, root, sim_start(entry), n);
    assert(sim_steps(b, root, sim_start(entry), m) == st);
    assert forall|k: int| 0 < k < st.loaded.len() implies is_answer(
        b,
        (#[trigger] st.loaded[k]).object,
    ) by {
        let o = st.loaded[k].object;
        assert(is_answer(a, o));
        let path = choose|path: Seq<char>| #[trigger]
            a.contains_key(path) && a[path] == Some(o);
        assert(b.contains_key(path) && b[path] == a[path]);
    }
}

/// A simulation that went on and ended gives the load list.
proof fn lemma_arrived(
    answers: Answers,
    root: Seq<char>,
    entry: ObjectModel,
    before: SimModel,
    st: SimModel,
)
    requires
        on_way(answers, root, entry, before),
        sim_inv(st),
        sim_found(answers, st),
        exists|n: nat| st == #[trigger] sim_steps(answers, root, before, n),
    ensures
        on_way(answers, root, entry, st),
        sim_step(answers, root, st) == StepModel::Done ==> is_load_list(
            answers,
            root,
            entry,
            st.loaded,
        ) && load_list(answers, root, entry) == st.loaded && points_inside(st.loaded),
{
    reveal(on_way);
    let start = sim_start(entry);
    let m = choose|n: nat| #[trigger] sim_steps(answers, root, start, n) == before;
    let n = choose|n: nat| st == #[trigger] sim_steps(answers, root, before, n);
    lemma_steps_add(answers, root, start, m, n);
    assert(sim_steps(answers, root, start, m + n) == st);
    if sim_step(answers, root, st) == StepModel::Done {
        assert(is_load_list(answers, root, entry, st.loaded));
        law_load_lists_are_unique(
            answers,
            root,
            entry,
            st.loaded,
            load_list(answers, root, entry),
        );
        law_load_lists_are_sound(answers, root, entry, st.loaded);
        let list = st.loaded;
        assert forall|k: int| 0 <= k < list.len() implies links_inside(
            list,
            (#[trigger] list[k]).needed,
        ) by {
            assert(resolved_rightly(list, k));
        }
    }
}

impl Scan {
    pub closed spec fn wf(&self) -> bool {
        &&& self.bundle.wf()
        &&& self.state.wf()
        &&& scan_inv(self@)
        &&& self.sim matches Some(sim) ==> self@.next < self@.entries.len() && is_started(
            self@.state,
            self@.entries[self@.next],
        ) && on_way(
            self@.bundle.answers,
            self@.bundle.root,
            self@.entries[self@.next],
            sim@,
        )
    }

    /// A scan of what has been collected.
    pub fn new(collection: Collection) -> (r: Scan)
        requires
            collection.wf(),
        ensures
            r.wf(),
            r@ == (ScanModel {
                bundle: collection@.bundle,
                entries: scan_order(collection@.objects),
                next: 0,
                state: Map::empty(),
            }),
    {
        let ghost all = collection@.objects;
        let Collection { bundle, objects } = collection;
        let ghost exe = |o: ObjectModel| o.elf.is_executable();
        let ghost lib = |o: ObjectModel| !o.elf.is_executable();
        let mut entries: Vec<Rc<Object>> = Vec::new();
        let mut libraries: Vec<Rc<Object>> = Vec::new();
        let mut i: usize = 0;
        assert(views(entries@) =~= all.take(0).filter(exe));
        assert(views(libraries@) =~= all.take(0).filter(lib));
        while i < objects.len()
            invariant
                i <= objects@.len(),
                all == views(objects@),
                exe == (|o: ObjectModel| o.elf.is_executable()),
                lib == (|o: ObjectModel| !o.elf.is_executable()),
                views(entries@) == all.take(i as int).filter(exe),
                views(libraries@) == all.take(i as int).filter(lib),
            decreases objects@.len() - i,
        {
            let object = Rc::clone(&objects[i]);
            let ghost o = object@;
            let ghost a = views(entries@);
            let ghost b = views(libraries@);
            proof {
                assert(all[i as int] == o);
                assert(all.take(i + 1) =~= all.take(i as int).push(o));
                all.take(i as int).lemma_filter_push(o, exe);
                all.take(i as int).lemma_filter_push(o, lib);
            }
            if object.elf.is_executable() {
                entries.push(object);
                assert(views(entries@) =~= a.push(o));
            } else {
                libraries.push(object);
                assert(views(libraries@) =~= b.push(o));
            }
            i = i + 1;
        }
        assert(all.take(all.len() as int) =~= all);
        let ghost a = entries@;
        let ghost b = libraries@;
        entries.append(&mut libraries);
        assert(views(a + b) =~= views(a) + views(b));
        Scan { bundle, entries, next: 0, sim: None, state: State::new() }
    }

    pub fn bundle(&self) -> (r: &Bundle)
        requires
            self.wf(),
        ensures
            r.wf(),
            r@ == self@.bundle,
    {
        &self.bundle
    }

    /// Tells what a path holds. A path that is known already stays as it is.
    pub fn open(&mut self, path: &str, canonical: Option<&str>, contents: &Contents)
        requires
            old(self).wf(),
        ensures
            final(self).wf(),
            final(self)@ == (ScanModel {
                bundle: if old(self)@.bundle.answers.contains_key(path@) {
                    old(self)@.bundle
                } else {
                    opened(
                        old(self)@.bundle,
                        path@,
                        match canonical {
                            Some(c) => Some(c@),
                            None => None,
                        },
                        *contents,
                    ).0
                },
                ..old(self)@
            }),
    {
        if self.bundle.is_answered(path) {
            return ;
        }
        let ghost m = self@;
        let ghost a = m.bundle.answers;
        let _ = self.bundle.open(path, canonical, contents);
        proof {
            let b = self@.bundle.answers;
            assert(a.submap_of(b));
            lemma_recorded_stays(a, b, m.bundle.root, m.entries, m.next);
            if self.sim is Some {
                let st = self.sim->Some_0@;
                lemma_on_way_stays(a, b, m.bundle.root, m.entries[m.next], st);
            }
        }
    }

    /// Runs the simulation of the next entry until it asks for a path or ends.
    fn run_next(&mut self) -> (r: Option<String>)
        requires
            old(self).wf(),
            old(self).next < old(self).entries.len(),
        ensures
            final(self).wf(),
            final(self)@.bundle == old(self)@.bundle,
            final(self)@.entries == old(self)@.entries,
            match r {
                Some(path) => final(self)@.next == old(self)@.next && is_started(
                    final(self)@.state,
                    final(self)@.entries[final(self)@.next],
                ) && is_asked(
                    final(self)@.bundle.answers,
                    final(self)@.bundle.root,
                    final(self)@.entries[final(self)@.next],
                    path@,
                ) && !final(self)@.bundle.answers.contains_key(path@),
                None => final(self)@.next == old(self)@.next + 1,
            },
    {
        let ghost m = self@;
        let entry = Rc::clone(&self.entries[self.next]);
        assert(m.entries[m.next] == entry@);
        // Libraries no executable links to (plugins, helpers loaded with dlopen)
        // are still part of the attack surface, so each becomes its own root.
        if !entry.elf.is_executable() && self.state.has(entry.rel.as_str()) {
            proof {
                lemma_passed(m);
            }
            self.next = self.next + 1;
            return None;
        }
        let sim = self.sim.take();
        let (sim, asked) = run_simulation(&self.bundle, entry, sim);
        if asked.is_some() {
            self.sim = Some(sim);
            return asked;
        }
        proof {
            lemma_reached(m, sim@.loaded);
        }
        self.state.record(sim.loaded());
        self.next = self.next + 1;
        None
    }

    /// Runs simulations as far as it is known what the paths hold. Gives the path
    /// that must be opened before the scan can go on, or `None` when every
    /// simulation has come to its end.
    pub fn advance(&mut self) -> (r: Option<String>)
        requires
            old(self).wf(),
        ensures
            final(self).wf(),
            scan_inv(final(self)@),
            final(self)@.bundle == old(self)@.bundle,
            final(self)@.entries == old(self)@.entries,
            match r {
                Some(path) => final(self)@.next < final(self)@.entries.len() && is_started(
                    final(self)@.state,
                    final(self)@.entries[final(self)@.next],
                ) && is_asked(
                    final(self)@.bundle.answers,
                    final(self)@.bundle.root,
                    final(self)@.entries[final(self)@.next],
                    path@,
                ) && !final(self)@.bundle.answers.contains_key(path@),
                None => final(self)@.next == final(self)@.entries.len(),
            },
    {
        let ghost m = self@;
        while self.next < self.entries.len()
            invariant
                self.wf(),
                m == old(self)@,
                self@.bundle == m.bundle,
                self@.entries == m.entries,
            decreases self.entries@.len() - self.next,
        {
            let asked = self.run_next();
            if asked.is_some() {
                return asked;
            }
        }
        None
    }
}

/// An entry that is loaded already is passed over.
proof fn lemma_passed(m: ScanModel)
    requires
        scan_inv(m),
        m.next < m.entries.len(),
        !is_started(m.state, m.entries[m.next]),
    ensures
        scan_inv((ScanModel { next: m.next + 1, ..m })),
{
}

/// The load list of an entry is taken note of.
proof fn lemma_reached(m: ScanModel, list: Seq<LoadedModel>)
    requires
        scan_inv(m),
        m.next < m.entries.len(),
        is_started(m.state, m.entries[m.next]),
        is_load_list(m.bundle.answers, m.bundle.root, m.entries[m.next], list),
        load_list(m.bundle.answers, m.bundle.root, m.entries[m.next]) == list,
    ensures
        scan_inv(
            (ScanModel {
                next: m.next + 1,
                state: with_loaded(m.state, list, list.len() as int),
                ..m
            }),
        ),
{
}

/// Runs the simulation of an entry, or goes on with it, until it asks for a path or
/// ends.
fn run_simulation(bundle: &Bundle, entry: Rc<Object>, sim: Option<Simulation>) -> (r: (
    Simulation,
    Option<String>,
))
    requires
        bundle.wf(),
        sim matches Some(st) ==> on_way(bundle@.answers, bundle@.root, entry@, st@),
    ensures
        on_way(bundle@.answers, bundle@.root, entry@, r.0@),
        match r.1 {
            Some(path) => is_asked(bundle@.answers, bundle@.root, entry@, path@)
                && !bundle@.answers.contains_key(path@),
            None => is_load_list(bundle@.answers, bundle@.root, entry@, r.0@.loaded) && load_list(
                bundle@.answers,
                bundle@.root,
                entry@,
            ) == r.0@.loaded && points_inside(r.0@.loaded),
        },
{
    let ghost answers = bundle@.answers;
    let ghost root = bundle@.root;
    let ghost e = entry@;
    let mut sim = match sim {
        Some(sim) => sim,
        None => Simulation::new(entry),
    };
    let ghost before = sim@;
    proof {
        reveal(on_way);
        if before == sim_start(e) {
            assert(sim_steps(answers, root, sim_start(e), 0) == before);
        }
    }
    let asked = bundle.simulate(&mut sim);
    proof {
        lemma_arrived(answers, root, e, before, sim@);
        lemma_ask_is_new(answers, root, sim@);
    }
    (sim, asked)
}

/// A simulation asks for new paths only.
proof fn lemma_ask_is_new(answers: Answers, root: Seq<char>, st: SimModel)
    requires
        sim_inv(st),
    ensures
        sim_step(answers, root, st) matches StepModel::Ask(path) ==> !answers.contains_key(path),
{
    if st.current < st.loaded.len() && st.links.len()
        < st.loaded[st.current].object.elf.needed.len() {
        law_search_finds_the_first_fit(
            answers,
            candidates(root, st.loaded, st.current, next_name(st)),
            st.loaded[st.current].object.elf,
            0,
        );
    }
}

/// What a report says about an object.
pub open spec fn object_report(
    path: Seq<char>,
    r: ReachedModel,
    db: Seq<CapModel>,
) -> ObjectReportModel {
    let a = analysis(r.object.elf, db);
    ObjectReportModel {
        path,
        executable: r.object.elf.is_executable(),
        format: class_text(r.object.elf.class, r.object.elf.endian)@,
        machine: r.object.elf.machine,
        soname: r.object.elf.soname,
        rpath: r.object.elf.rpath,
        runpath: r.object.elf.runpath,
        needed: r.needed,
        imports_dynamic_loader: a.imports_dynamic_loader,
        dlopen_candidates: a.dlopen_candidates,
    }
}

/// The title of a capability.
pub open spec fn title_of(db: Seq<CapModel>, id: Seq<char>) -> Seq<char> {
    match cap_with_id(db, id) {
        Some(i) => db[i].title,
        None => Seq::empty(),
    }
}

/// What a report says about a piece of evidence in an object.
pub open spec fn finding(
    e: EvidenceModel,
    object: Seq<char>,
    chains: Seq<Seq<Seq<char>>>,
    db: Seq<CapModel>,
) -> FindingModel {
    FindingModel {
        capability: e.capability,
        title: title_of(db, e.capability),
        object,
        symbol: e.symbol,
        version: e.version,
        confidence: e.confidence,
        reached_via: chains,
    }
}

/// The findings in an object, in the order of its evidence.
pub open spec fn object_findings(path: Seq<char>, r: ReachedModel, db: Seq<CapModel>) -> Seq<
    FindingModel,
> {
    analysis(r.object.elf, db).evidence.map_values(
        |e: EvidenceModel| finding(e, path, r.chains, db),
    )
}

/// The findings in the first `n` of some objects.
pub open spec fn all_findings(
    st: StateModel,
    paths: Seq<Seq<char>>,
    db: Seq<CapModel>,
    n: int,
) -> Seq<FindingModel>
    decreases n,
{
    if n <= 0 {
        Seq::empty()
    } else {
        all_findings(st, paths, db, n - 1) + object_findings(paths[n - 1], st[paths[n - 1]], db)
    }
}

/// What findings are ordered by.
pub struct FindingKeyModel {
    pub rank: usize,
    pub object: Seq<char>,
    pub confidence: Confidence,
    pub symbol: Seq<char>,
}

/// The position of a capability in the database; behind all others when it has
/// none.
pub open spec fn rank_of(db: Seq<CapModel>, id: Seq<char>) -> usize {
    match cap_with_id(db, id) {
        Some(i) => i as usize,
        None => usize::MAX,
    }
}

pub open spec fn finding_key(db: Seq<CapModel>, f: FindingModel) -> FindingKeyModel {
    FindingKeyModel {
        rank: rank_of(db, f.capability),
        object: f.object,
        confidence: f.confidence,
        symbol: f.symbol,
    }
}

/// By rank, object, confidence and symbol, in this order.
pub open spec fn finding_before(a: FindingKeyModel, b: FindingKeyModel) -> bool {
    a.rank < b.rank || (a.rank == b.rank && (text_before(a.object, b.object) || (a.object
        == b.object && (confidence_before(a.confidence, b.confidence) || (a.confidence
        == b.confidence && text_before(a.symbol, b.symbol))))))
}

/// What findings are ordered by.
pub struct FindingKey {
    pub rank: usize,
    pub object: String,
    pub confidence: Confidence,
    pub symbol: String,
}

impl View for FindingKey {
    type V = FindingKeyModel;

    open spec fn view(&self) -> FindingKeyModel {
        FindingKeyModel {
            rank: self.rank,
            object: self.object@,
            confidence: self.confidence,
            symbol: self.symbol@,
        }
    }
}

impl Ordered for FindingKey {
    open spec fn before(a: FindingKeyModel, b: FindingKeyModel) -> bool {
        finding_before(a, b)
    }

    proof fn irreflexive(a: FindingKeyModel) {
        lemma_text_irreflexive(a.object);
        lemma_text_irreflexive(a.symbol);
    }

    proof fn transitive(a: FindingKeyModel, b: FindingKeyModel, c: FindingKeyModel) {
        if text_before(a.object, b.object) && text_before(b.object, c.object) {
            lemma_text_transitive(a.object, b.object, c.object);
        }
        if text_before(a.symbol, b.symbol) && text_before(b.symbol, c.symbol) {
            lemma_text_transitive(a.symbol, b.symbol, c.symbol);
        }
    }

    proof fn connected(a: FindingKeyModel, b: FindingKeyModel) {
        lemma_text_connected(a.object, b.object);
        lemma_text_connected(a.symbol, b.symbol);
    }

    fn relate(&self, other: &Self) -> Relation {
        if self.rank < other.rank {
            return Relation::Before;
        }
        if other.rank < self.rank {
            return Relation::After;
        }
        match relate_text(self.object.as_str(), other.object.as_str()) {
            Relation::Same => match relate_confidence(self.confidence, other.confidence) {
                Relation::Same => relate_text(self.symbol.as_str(), other.symbol.as_str()),
                r => r,
            },
            r => r,
        }
    }
}

/// The errors of a bundle, in the order of their paths.
pub open spec fn file_errors(errors: Map<Seq<char>, Seq<char>>) -> Seq<FileErrorModel> {
    in_order::<String>(errors.dom()).map_values(
        |p: Seq<char>| FileErrorModel { path: p, message: errors[p] },
    )
}

/// `r` is the report about what a scan reached.
pub open spec fn is_report(
    r: ReportModel,
    root: Seq<char>,
    st: StateModel,
    errors: Map<Seq<char>, Seq<char>>,
    db: Seq<CapModel>,
) -> bool {
    let paths = in_order::<String>(st.dom());
    &&& r.root == root
    &&& r.objects == paths.map_values(|p: Seq<char>| object_report(p, st[p], db))
    &&& is_stable_order(
        all_findings(st, paths, db, paths.len() as int),
        r.findings,
        |f: FindingModel| finding_key(db, f),
        |a: FindingKeyModel, b: FindingKeyModel| finding_before(a, b),
    )
    &&& r.errors == file_errors(errors)
}

fn copied_chains(chains: &Vec<Vec<String>>) -> (r: Vec<Vec<String>>)
    ensures
        chain_texts(r@) == chain_texts(chains@),
{
    let mut out: Vec<Vec<String>> = Vec::new();
    let mut i: usize = 0;
    while i < chains.len()
        invariant
            i <= chains@.len(),
            out@.len() == i,
            forall|j: int| 0 <= j < i ==> texts((#[trigger] out@[j])@) == texts(chains@[j]@),
        decreases chains@.len() - i,
    {
        out.push(copied(&chains[i]));
        i = i + 1;
    }
    assert(chain_texts(out@) =~= chain_texts(chains@));
    out
}

fn copied_needed(needed: &Vec<NeededReport>) -> (r: Vec<NeededReport>)
    ensures
        views(r@) == views(needed@),
{
    let mut out: Vec<NeededReport> = Vec::new();
    let mut i: usize = 0;
    while i < needed.len()
        invariant
            i <= needed@.len(),
            out@.len() == i,
            forall|j: int| 0 <= j < i ==> (#[trigger] out@[j])@ == needed@[j]@,
        decreases needed@.len() - i,
    {
        let n = &needed[i];
        out.push(NeededReport { name: n.name.clone(), resolved: copied_text(&n.resolved) });
        i = i + 1;
    }
    assert(views(out@) =~= views(needed@));
    out
}

fn copied_text(s: &Option<String>) -> (r: Option<String>)
    ensures
        text_of(r) == text_of(*s),
{
    match s {
        Some(t) => Some(t.clone()),
        None => None,
    }
}

/// Adds the findings in an object, each with what it is ordered by.
fn add_findings(
    out: &mut Vec<(FindingKey, Finding)>,
    path: &String,
    reached: &Reached,
    evidence: &Vec<Evidence>,
    db: &CapDb,
)
    requires
        views(evidence@) == analysis(reached@.object.elf, db@).evidence,
        forall|i: int|
            0 <= i < old(out)@.len() ==> (#[trigger] old(out)@[i]).0@ == finding_key(
                db@,
                old(out)@[i].1@,
            ),
    ensures
        final(out)@.map_values(|p: (FindingKey, Finding)| p.1@) == old(out)@.map_values(
            |p: (FindingKey, Finding)| p.1@,
        ) + object_findings(path@, reached@, db@),
        forall|i: int|
            0 <= i < final(out)@.len() ==> (#[trigger] final(out)@[i]).0@ == finding_key(
                db@,
                final(out)@[i].1@,
            ),
{
    let ghost f = |p: (FindingKey, Finding)| p.1@;
    let ghost before = out@.map_values(f);
    let ghost all = object_findings(path@, reached@, db@);
    let mut i: usize = 0;
    assert(out@.map_values(f) =~= before + all.take(0));
    while i < evidence.len()
        invariant
            i <= evidence@.len(),
            f == (|p: (FindingKey, Finding)| p.1@),
            views(evidence@) == analysis(reached@.object.elf, db@).evidence,
            all == object_findings(path@, reached@, db@),
            out@.map_values(f) == before + all.take(i as int),
            forall|j: int|
                0 <= j < out@.len() ==> (#[trigger] out@[j]).0@ == finding_key(db@, out@[j].1@),
        decreases evidence@.len() - i,
    {
        let e = &evidence[i];
        assert(views(evidence@)[i as int] == e@);
        let title = match db.get(e.capability.as_str()) {
            Some(cap) => cap.title.clone(),
            None => String::new(),
        };
        assert(title@ =~= title_of(db@, e@.capability));
        let found = Finding {
            capability: e.capability.clone(),
            title,
            object: path.clone(),
            symbol: e.symbol.clone(),
            version: copied_text(&e.version),
            confidence: e.confidence,
            reached_via: copied_chains(&reached.chains),
        };
        assert(found@ == all[i as int]);
        let key = FindingKey {
            rank: db.rank(e.capability.as_str()),
            object: path.clone(),
            confidence: e.confidence,
            symbol: e.symbol.clone(),
        };
        assert(key@ == finding_key(db@, found@));
        let ghost now = out@;
        out.push((key, found));
        assert(out@.map_values(f) =~= now.map_values(f).push(all[i as int]));
        assert(before + all.take(i + 1) =~= (before + all.take(i as int)).push(all[i as int]));
        i = i + 1;
    }
    assert(all.take(all.len() as int) =~= all);
}

/// What the report says about an object whose analysis is done.
fn report_object(
    path: &String,
    reached: &Reached,
    a: ObjectAnalysis,
    Ghost(db): Ghost<Seq<CapModel>>,
) -> (r: ObjectReport)
    requires
        a@ == analysis(reached@.object.elf, db),
    ensures
        r@ == object_report(path@, reached@, db),
{
    let elf = &reached.object.elf;
    ObjectReport {
        path: path.clone(),
        executable: elf.is_executable(),
        format: owned(elf.class_name()),
        machine: elf.machine,
        soname: copied_text(&elf.soname),
        rpath: copied_text(&elf.rpath),
        runpath: copied_text(&elf.runpath),
        needed: copied_needed(&reached.needed),
        imports_dynamic_loader: a.imports_dynamic_loader,
        dlopen_candidates: a.dlopen_candidates,
    }
}

impl Scan {
    /// The report about what the scan has reached.
    pub fn report(&self, root: &str, db: &CapDb) -> (r: Report)
        requires
            self.wf(),
        ensures
            is_report(r@, root@, self@.state, self@.bundle.errors, db@),
    {
        let ghost st = self@.state;
        let ghost paths = in_order::<String>(st.dom());
        let index = &self.state.index;
        let ghost f = |p: (FindingKey, Finding)| p.1@;
        proof {
            index.lemma_sorted_keys();
            assert(st.dom() =~= index@.dom());
        }
        let mut objects: Vec<ObjectReport> = Vec::new();
        let mut items: Vec<(FindingKey, Finding)> = Vec::new();
        let mut i: usize = 0;
        assert(items@.map_values(f) =~= Seq::<FindingModel>::empty());
        while i < index.len()
            invariant
                i <= paths.len(),
                self.wf(),
                *index == self.state.index,
                st == self.state@,
                index.wf(),
                index.sorted_keys() == paths,
                f == (|p: (FindingKey, Finding)| p.1@),
                objects@.len() == i,
                forall|j: int|
                    0 <= j < i ==> (#[trigger] objects@[j])@ == object_report(
                        paths[j],
                        st[paths[j]],
                        db@,
                    ),
                items@.map_values(f) == all_findings(st, paths, db@, i as int),
                forall|j: int|
                    0 <= j < items@.len() ==> (#[trigger] items@[j]).0@ == finding_key(
                        db@,
                        items@[j].1@,
                    ),
            decreases paths.len() - i,
        {
            let (path, at) = index.entry(i);
            let reached = &self.state.entries[*at];
            assert(st[path@] == reached@);
            let a = analyze(&reached.object.elf, db);
            add_findings(&mut items, path, reached, &a.evidence, db);
            objects.push(report_object(path, reached, a, Ghost(db@)));
            i = i + 1;
        }
        assert(views(objects@) =~= paths.map_values(
            |p: Seq<char>| object_report(p, st[p], db@),
        ));
        let sorted = sort_stably(items);
        proof {
            lemma_stable_view(
                items@,
                sorted@,
                f,
                |x: FindingModel| finding_key(db@, x),
            );
        }
        let mut findings: Vec<Finding> = Vec::new();
        for item in it: sorted
            invariant
                it.seq() == sorted@,
                findings@.len() == it.index(),
                forall|j: int|
                    0 <= j < findings@.len() ==> (#[trigger] findings@[j])@ == sorted@[j].1@,
        {
            let (_, found) = item;
            findings.push(found);
        }
        assert(views(findings@) =~= sorted@.map_values(f));
        let errors = self.list_errors();
        Report { root: owned(root), objects, findings, errors }
    }

    fn list_errors(&self) -> (r: Vec<FileError>)
        requires
            self.wf(),
        ensures
            views(r@) == file_errors(self@.bundle.errors),
    {
        let errors = self.bundle.errors();
        let ghost all = self@.bundle.errors;
        let ghost paths = in_order::<String>(all.dom());
        proof {
            errors.lemma_sorted_keys();
            assert(all.dom() =~= errors@.dom());
        }
        let mut out: Vec<FileError> = Vec::new();
        let mut i: usize = 0;
        while i < errors.len()
            invariant
                i <= paths.len(),
                errors.wf(),
                errors.sorted_keys() == paths,
                all == errors@.map_values(|s: String| s@),
                out@.len() == i,
                forall|j: int|
                    0 <= j < i ==> (#[trigger] out@[j])@ == (FileErrorModel {
                        path: paths[j],
                        message: all[paths[j]],
                    }),
            decreases paths.len() - i,
        {
            let (path, message) = errors.entry(i);
            out.push(FileError { path: path.clone(), message: message.clone() });
            i = i + 1;
        }
        assert(views(out@) =~= file_errors(all));
        out
    }
}

} // verus!
