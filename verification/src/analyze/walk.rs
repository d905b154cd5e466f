//! The breadth-first walk of the `DT_NEEDED` graph.
//!
//! A [`Walk`] asks for what it has to know next: what stands at the places
//! where a library may be, or what a library holds. Each object is parsed once
//! and kept for the symbol and version questions.

use vstd::prelude::*;
use super::host;
use super::host::{Environment, EnvironmentView, FileFacts};
use super::link;
use super::{
    Analysis, AnalysisView, InterpreterFinding, InterpreterView, KindView, LibResolution,
    LibraryFinding, LibraryView, ResolutionView, TargetKind,
};
use crate::elf;
use crate::elf::{ElfFile, ElfType, ElfView};
use crate::resolve;
use crate::resolve::{
    ElfIdentity, Located, OutcomeView, Probe, ProbeView, Resolver, ResolverView, SearchOutcome,
};
use crate::table;
use crate::text;

verus! {

// ---------------------------------------------------------------------------
// Search directories
// ---------------------------------------------------------------------------

/// The `DT_RPATH` directories of an object; none where it has a `DT_RUNPATH`.
pub open spec fn own_rpath(object: ElfView, arch: Seq<char>) -> Seq<Seq<char>> {
    if object.runpath.len() == 0 {
        resolve::expanded_dirs(object, object.rpath, arch)
    } else {
        Seq::empty()
    }
}

/// The `DT_RUNPATH` directories of an object.
pub open spec fn own_runpath(object: ElfView, arch: Seq<char>) -> Seq<Seq<char>> {
    resolve::expanded_dirs(object, object.runpath, arch)
}

/// The `DT_RPATH` directories of an object.
fn rpath_dirs(object: &ElfFile, arch: &str) -> (r: Vec<String>)
    ensures
        r.deep_view() == own_rpath(object.deep_view(), arch@),
{
    if object.runpath.len() == 0 {
        resolve::expand_dirs(object, object.rpath.as_slice(), arch)
    } else {
        let none: Vec<String> = Vec::new();
        assert(none.deep_view() =~= Seq::<Seq<char>>::empty());
        none
    }
}

/// The search directories for one object's `DT_NEEDED` entries: its `DT_RPATH`
/// ones and its `DT_RUNPATH` ones.
///
/// `DT_RPATH` is only honoured when the object has no `DT_RUNPATH`, and the
/// root's `DT_RPATH` keeps applying to the whole chain (the legacy behaviour).
pub fn load_dirs(object: &ElfFile, is_root: bool, root_rpath: &Vec<String>, arch: &str) -> (r: (
    Vec<String>,
    Vec<String>,
))
    ensures
        r.0.deep_view() == (if is_root {
            Seq::empty()
        } else {
            root_rpath.deep_view()
        }) + own_rpath(object.deep_view(), arch@),
        r.1.deep_view() == own_runpath(object.deep_view(), arch@),
{
    let mut rpath: Vec<String> = Vec::new();
    assert(rpath.deep_view() =~= Seq::<Seq<char>>::empty());
    if !is_root {
        push_all(&mut rpath, root_rpath);
    }
    push_all(&mut rpath, &rpath_dirs(object, arch));
    let runpath: Vec<String> = resolve::expand_dirs(object, object.runpath.as_slice(), arch);
    assert(rpath.deep_view() =~= (if is_root {
        Seq::empty()
    } else {
        root_rpath.deep_view()
    }) + own_rpath(object.deep_view(), arch@));
    (rpath, runpath)
}

/// Appends copies of some strings.
fn push_all(out: &mut Vec<String>, more: &Vec<String>)
    ensures
        final(out).deep_view() == old(out).deep_view() + more.deep_view(),
{
    let ghost before = out.deep_view();
    let ghost added = more.deep_view();
    let mut i: usize = 0;
    assert(out.deep_view() =~= before + added.take(0));
    while i < more.len()
        invariant
            i <= more@.len(),
            added == more.deep_view(),
            out.deep_view() == before + added.take(i as int),
        decreases more@.len() - i,
    {
        let ghost so_far = out.deep_view();
        out.push(more[i].clone());
        assert(out.deep_view() =~= so_far.push(added[i as int]));
        i += 1;
        assert(out.deep_view() =~= before + added.take(i as int));
    }
    assert(added.take(i as int) =~= added);
}

// ---------------------------------------------------------------------------
// Resolutions
// ---------------------------------------------------------------------------

/// How useful a library outcome is.
pub open spec fn usefulness(resolution: ResolutionView) -> u8 {
    match resolution {
        ResolutionView::Found(_) => 3,
        ResolutionView::WrongArchitecture { .. } => 2,
        ResolutionView::Unusable { .. } => 1,
        ResolutionView::Missing => 0,
    }
}

/// Orders library outcomes by usefulness, so a good result is never replaced
/// by a worse one discovered later through another object.
pub fn resolution_rank(resolution: &LibResolution) -> (r: u8)
    ensures
        r == usefulness(resolution.deep_view()),
{
    match resolution {
        LibResolution::Found(_) => 3,
        LibResolution::WrongArchitecture { .. } => 2,
        LibResolution::Unusable { .. } => 1,
        LibResolution::Missing => 0,
    }
}

/// What a search outcome means for an object of the given machine.
pub open spec fn resolution_of(outcome: OutcomeView, machine: u16) -> ResolutionView {
    match outcome {
        OutcomeView::Found(path) => ResolutionView::Found(path),
        OutcomeView::WrongArchitecture(path, found) => ResolutionView::WrongArchitecture {
            path,
            found: elf::machine_text(found.machine),
            wanted: elf::machine_text(machine),
        },
        OutcomeView::Unusable(path, reason) => ResolutionView::Unusable { path, reason },
        OutcomeView::Missing => ResolutionView::Missing,
    }
}

/// What a search outcome means for an object of the given machine.
fn resolve_outcome(outcome: SearchOutcome, machine: u16) -> (r: LibResolution)
    ensures
        r.deep_view() == resolution_of(outcome.deep_view(), machine),
{
    match outcome {
        SearchOutcome::Found(path) => LibResolution::Found(path),
        SearchOutcome::WrongArchitecture(path, found) => LibResolution::WrongArchitecture {
            path,
            found: elf::machine_name(found.machine),
            wanted: elf::machine_name(machine),
        },
        SearchOutcome::Unusable(path, reason) => LibResolution::Unusable {
            path,
            reason: reason.to_owned(),
        },
        SearchOutcome::Missing => LibResolution::Missing,
    }
}

// ---------------------------------------------------------------------------
// The state of a walk
// ---------------------------------------------------------------------------

/// The state of a walk.
pub struct Walk {
    /// What the report calls the root object.
    label: String,
    /// The architecture of the host.
    arch: String,
    resolver: Resolver,
    /// The canonical paths of the objects.
    keys: Vec<String>,
    /// The objects, in the order in which they were found.
    objects: Vec<ElfFile>,
    /// The canonical paths of what did not parse, each with the reason.
    failed: Vec<(String, String)>,
    /// The object, and the `DT_NEEDED` entry of it, that is looked for.
    object: usize,
    entry: usize,
    /// The path and the canonical path of what is to be loaded for the entry.
    loading: Option<(String, String)>,
    libraries: Vec<LibraryFinding>,
    /// The canonical path of each library that was found.
    places: Vec<String>,
    notes: Vec<String>,
}

/// What a [`Walk`] holds.
pub struct WalkView {
    pub label: Seq<char>,
    pub arch: Seq<char>,
    pub resolver: ResolverView,
    pub keys: Seq<Seq<char>>,
    pub objects: Seq<ElfView>,
    pub failed: Seq<(Seq<char>, Seq<char>)>,
    pub object: nat,
    pub entry: nat,
    pub loading: Option<(Seq<char>, Seq<char>)>,
    pub libraries: Seq<LibraryView>,
    pub places: Seq<Seq<char>>,
    pub notes: Seq<Seq<char>>,
}

impl DeepView for Walk {
    type V = WalkView;

    closed spec fn deep_view(&self) -> WalkView {
        WalkView {
            label: self.label@,
            arch: self.arch@,
            resolver: self.resolver.deep_view(),
            keys: self.keys.deep_view(),
            objects: self.objects.deep_view(),
            failed: self.failed.deep_view(),
            object: self.object as nat,
            entry: self.entry as nat,
            loading: self.loading.deep_view(),
            libraries: self.libraries.deep_view(),
            places: self.places.deep_view(),
            notes: self.notes.deep_view(),
        }
    }
}

/// What a walk has to know next.
#[derive(Debug, Clone)]
pub enum Request {
    /// What stands at these places. The first usable object is wanted; probes
    /// behind it are not needed.
    Locate { candidates: Vec<String>, wanted: ElfIdentity },
    /// The content of a file.
    Load { key: String },
    /// Nothing: the walk is over.
    Done,
}

/// What a [`Request`] asks for.
pub enum WantView {
    Locate { candidates: Seq<Seq<char>>, wanted: ElfIdentity },
    Load { key: Seq<char> },
    Done,
}

impl DeepView for Request {
    type V = WantView;

    open spec fn deep_view(&self) -> WantView {
        match self {
            Request::Locate { candidates, wanted } => WantView::Locate {
                candidates: candidates.deep_view(),
                wanted: *wanted,
            },
            Request::Load { key } => WantView::Load { key: key@ },
            Request::Done => WantView::Done,
        }
    }
}

/// The first object and entry from here on that there is; one past the last
/// object where there is none.
pub open spec fn cursor_from(objects: Seq<ElfView>, object: nat, entry: nat) -> (nat, nat)
    decreases objects.len() - object,
{
    if object < objects.len() && entry >= objects[object as int].needed.len() {
        cursor_from(objects, object + 1, 0)
    } else {
        (object, entry)
    }
}

/// The place of a library among the findings.
pub open spec fn library_at(libraries: Seq<LibraryView>, name: Seq<char>) -> Option<int>
    decreases libraries.len(),
{
    if libraries.len() == 0 {
        None
    } else {
        match library_at(libraries.drop_last(), name) {
            Some(i) => Some(i),
            None => if libraries.last().name == name {
                Some(libraries.len() - 1)
            } else {
                None
            },
        }
    }
}

/// What is noted where one name leads to two files.
pub open spec fn two_files_text(name: Seq<char>, a: Seq<char>, b: Seq<char>) -> Seq<char> {
    name + " resolves to more than one file ("@ + a + " and "@ + b + ")"@
}

/// Why an object that does not parse cannot be used.
pub open spec fn unparsed_text(error: Seq<char>) -> Seq<char> {
    "could not be parsed ("@ + error + ")"@
}

/// What is noted of an object that does not parse.
pub open spec fn unread_text(path: Seq<char>, error: Seq<char>) -> Seq<char> {
    "could not read "@ + path + ": "@ + error
}

/// An outcome takes the place of an earlier one: it is more useful, or the
/// search gave a file that does not parse where one that cannot be used was
/// known.
pub open spec fn replaces(old: ResolutionView, gave_a_file: bool, new: ResolutionView) -> bool {
    usefulness(new) > usefulness(old) || (gave_a_file && new is Unusable && old is Unusable)
}

/// A finding that is needed by one object more, with the outcome that stands.
pub open spec fn merged(
    old: LibraryView,
    requirer: Seq<char>,
    gave_a_file: bool,
    resolution: ResolutionView,
) -> LibraryView {
    LibraryView {
        name: old.name,
        needed_by: if old.needed_by.contains(requirer) {
            old.needed_by
        } else {
            old.needed_by.push(requirer)
        },
        resolution: if replaces(old.resolution, gave_a_file, resolution) {
            resolution
        } else {
            old.resolution
        },
    }
}

impl WalkView {
    /// What the report calls an object: the root as the user typed it, the
    /// others by their canonical paths.
    pub open spec fn label_of(self, i: int) -> Seq<char> {
        if i == 0 {
            self.label
        } else {
            self.keys[i]
        }
    }

    /// The `DT_RPATH` directories for an object.
    pub open spec fn rpath_of(self, i: int) -> Seq<Seq<char>> {
        (if i == 0 {
            Seq::empty()
        } else {
            own_rpath(self.objects[0], self.arch)
        }) + own_rpath(self.objects[i], self.arch)
    }

    /// The name that is looked for.
    pub open spec fn name(self) -> Seq<char> {
        self.objects[self.object as int].needed[self.entry as int]
    }

    /// The places where it may be.
    pub open spec fn candidates(self) -> Seq<Seq<char>> {
        self.resolver.places(
            self.name(),
            self.rpath_of(self.object as int),
            own_runpath(self.objects[self.object as int], self.arch),
        )
    }

    /// The class and the machine that it must have. A `DT_NEEDED` name is only
    /// satisfied by an object of the same class and machine: a 32-bit program
    /// cannot load the 64-bit libc.so.6 that happens to sit first in the cache.
    pub open spec fn wanted(self) -> ElfIdentity {
        resolve::identity_of(self.objects[self.object as int])
    }

    /// What has to be known next.
    pub open spec fn want(self) -> WantView {
        match self.loading {
            Some((_, key)) => WantView::Load { key },
            None => if self.object < self.objects.len() {
                WantView::Locate { candidates: self.candidates(), wanted: self.wanted() }
            } else {
                WantView::Done
            },
        }
    }

    /// With an outcome recorded for the name that is looked for. `found` is the
    /// path and the canonical path of the object that the search gave, and
    /// `place` the canonical path where the outcome is usable.
    pub open spec fn recorded(
        self,
        found: Option<(Seq<char>, Seq<char>)>,
        resolution: ResolutionView,
        place: Seq<char>,
    ) -> WalkView {
        let requirer = self.label_of(self.object as int);
        match library_at(self.libraries, self.name()) {
            None => WalkView {
                libraries: self.libraries.push(
                    LibraryView {
                        name: self.name(),
                        needed_by: seq![requirer],
                        resolution,
                    },
                ),
                places: self.places.push(place),
                ..self
            },
            Some(i) => WalkView {
                notes: match (self.libraries[i].resolution, found) {
                    (ResolutionView::Found(previous), Some((current, key))) => if self.places[i]
                        != key {
                        self.notes.push(two_files_text(self.name(), previous, current))
                    } else {
                        self.notes
                    },
                    _ => self.notes,
                },
                libraries: self.libraries.update(
                    i,
                    merged(self.libraries[i], requirer, found is Some, resolution),
                ),
                places: if replaces(self.libraries[i].resolution, found is Some, resolution) {
                    self.places.update(i, place)
                } else {
                    self.places
                },
                ..self
            },
        }
    }

    /// With the next entry to be looked for.
    pub open spec fn advanced(self) -> WalkView {
        let next = cursor_from(self.objects, self.object, self.entry + 1);
        WalkView { object: next.0, entry: next.1, ..self }
    }

    /// After the places were probed. Only where that was asked for does it
    /// change anything. A usable object that is not known yet is to be loaded;
    /// one that failed to parse stays unusable.
    pub open spec fn located(self, probes: Seq<ProbeView>) -> WalkView {
        if !(self.want() is Locate) {
            self
        } else {
            let outcome = resolve::searched(self.candidates(), probes, Some(self.wanted()));
            let key = resolve::taken_key(self.candidates().len(), probes, Some(self.wanted()));
            match outcome {
                OutcomeView::Found(path) => if self.keys.contains(key) {
                    self.recorded(Some((path, key)), ResolutionView::Found(path), key).advanced()
                } else {
                    match table::known(self.failed, key) {
                        Some(error) => self.recorded(
                            Some((path, key)),
                            ResolutionView::Unusable { path: key, reason: unparsed_text(error) },
                            Seq::empty(),
                        ).advanced(),
                        None => WalkView { loading: Some((path, key)), ..self },
                    }
                },
                _ => self.recorded(
                    None,
                    resolution_of(outcome, self.wanted().machine),
                    Seq::empty(),
                ).advanced(),
            }
        }
    }

    /// After the file was read, or failed to be. Only where that was asked for
    /// does it change anything.
    pub open spec fn loaded(self, content: Result<Seq<u8>, Seq<char>>) -> WalkView {
        match self.loading {
            None => self,
            Some((path, key)) => match elf::parsed_file(key, content) {
                Ok(object) => WalkView {
                    keys: self.keys.push(key),
                    objects: self.objects.push(object),
                    loading: None,
                    ..self
                }.recorded(Some((path, key)), ResolutionView::Found(path), key).advanced(),
                Err(error) => {
                    let after = WalkView {
                        failed: self.failed.push((key, error.text())),
                        loading: None,
                        ..self
                    }.recorded(
                        Some((path, key)),
                        ResolutionView::Unusable {
                            path: key,
                            reason: unparsed_text(error.text()),
                        },
                        Seq::empty(),
                    );
                    WalkView {
                        notes: after.notes.push(unread_text(path, error.text())),
                        ..after
                    }.advanced()
                },
            },
        }
    }
}

/// What is noted of a root object.
pub open spec fn root_notes(root: ElfView) -> Seq<Seq<char>> {
    if root.etype is Executable && root.interpreter is None && !root.has_dynamic {
        seq!["statically linked: no dynamic loader and no shared library dependencies"@]
    } else {
        Seq::empty()
    }
}

/// A walk that starts from a root object.
pub open spec fn start_of(
    label: Seq<char>,
    key: Seq<char>,
    root: ElfView,
    resolver: ResolverView,
    arch: Seq<char>,
) -> WalkView {
    let first = cursor_from(seq![root], 0, 0);
    WalkView {
        label,
        arch,
        resolver,
        keys: seq![key],
        objects: seq![root],
        failed: Seq::empty(),
        object: first.0,
        entry: first.1,
        loading: None,
        libraries: Seq::empty(),
        places: Seq::empty(),
        notes: root_notes(root),
    }
}

// ---------------------------------------------------------------------------
// What holds of every walk
// ---------------------------------------------------------------------------

/// The entry at `(o, e)` comes before the one at `(object, entry)`.
pub open spec fn is_before(o: int, e: int, object: nat, entry: nat) -> bool {
    o < object || (o == object && e < entry)
}

impl WalkView {
    /// Some object that the report calls `label` needs `name`.
    pub open spec fn needs(self, label: Seq<char>, name: Seq<char>) -> bool {
        exists|o: int|
            0 <= o < self.objects.len() && #[trigger] self.label_of(o) == label
                && self.objects[o].needed.contains(name)
    }

    /// There is a finding for `name` that names the object called `label`.
    pub open spec fn reports(self, label: Seq<char>, name: Seq<char>) -> bool {
        exists|i: int|
            0 <= i < self.libraries.len() && (#[trigger] self.libraries[i]).name == name
                && self.libraries[i].needed_by.contains(label)
    }

    /// No object stands twice, and nothing that failed to parse is an object.
    pub open spec fn objects_are_distinct(self) -> bool {
        &&& self.objects.len() > 0
        &&& self.keys.len() == self.objects.len()
        &&& self.keys.no_duplicates()
        &&& forall|j: int|
            0 <= j < self.failed.len() ==> !self.keys.contains((#[trigger] self.failed[j]).0)
    }

    /// No library stands twice, each is needed by some object and by none
    /// twice, and what was found is one of the objects.
    pub open spec fn libraries_are_distinct(self) -> bool {
        &&& self.places.len() == self.libraries.len()
        &&& forall|i: int, j: int|
            0 <= i < j < self.libraries.len() ==> (#[trigger] self.libraries[i]).name != (
            #[trigger] self.libraries[j]).name
        &&& forall|i: int|
            0 <= i < self.libraries.len() ==> (
            #[trigger] self.libraries[i]).needed_by.no_duplicates()
            && self.libraries[i].needed_by.len() > 0
        &&& forall|i: int|
            0 <= i < self.libraries.len() ==> ((#[trigger] self.libraries[i]).resolution is Found
                ==> self.keys.contains(self.places[i]))
    }

    /// What a finding names as needing the library does need it.
    pub open spec fn findings_are_justified(self) -> bool {
        forall|i: int, j: int|
            0 <= i < self.libraries.len() && 0 <= j < self.libraries[i].needed_by.len()
                ==> self.needs(
                #[trigger] self.libraries[i].needed_by[j],
                self.libraries[i].name,
            )
    }

    /// Every entry before the given one has its finding.
    pub open spec fn is_reported_to(self, object: nat, entry: nat) -> bool {
        forall|o: int, e: int|
            0 <= o < self.objects.len() && 0 <= e < self.objects[o].needed.len() && is_before(
                o,
                e,
                object,
                entry,
            ) ==> self.reports(self.label_of(o), #[trigger] self.objects[o].needed[e])
    }

    /// An entry is looked for, or there is none left.
    pub open spec fn cursor_is_right(self) -> bool {
        &&& self.object <= self.objects.len()
        &&& self.object < self.objects.len() ==> self.entry
            < self.objects[self.object as int].needed.len()
        &&& self.loading matches Some((_, key)) ==> self.object < self.objects.len()
            && !self.keys.contains(key) && table::known(self.failed, key) is None
    }

    /// What holds of every walk.
    pub open spec fn sound(self) -> bool {
        &&& self.objects_are_distinct()
        &&& self.libraries_are_distinct()
        &&& self.findings_are_justified()
        &&& self.is_reported_to(self.object, self.entry)
        &&& self.cursor_is_right()
    }
}

/// `library_at` finds a name exactly where there is a finding for it.
proof fn lemma_library_at(libraries: Seq<LibraryView>, name: Seq<char>)
    ensures
        library_at(libraries, name) matches Some(i) ==> 0 <= i < libraries.len()
            && libraries[i].name == name,
        library_at(libraries, name) is None ==> forall|i: int|
            0 <= i < libraries.len() ==> (#[trigger] libraries[i]).name != name,
    decreases libraries.len(),
{
    if libraries.len() > 0 {
        let front = libraries.drop_last();
        lemma_library_at(front, name);
        if library_at(libraries, name) is None {
            assert forall|i: int| 0 <= i < libraries.len() implies (
            #[trigger] libraries[i]).name != name by {
                if i < front.len() {
                    assert(front[i] == libraries[i]);
                }
            }
        }
    }
}

/// A recorded outcome keeps what holds, and reports the entry.
proof fn lemma_recorded(
    w: WalkView,
    found: Option<(Seq<char>, Seq<char>)>,
    resolution: ResolutionView,
    place: Seq<char>,
)
    requires
        w.objects_are_distinct(),
        w.libraries_are_distinct(),
        w.findings_are_justified(),
        w.object < w.objects.len(),
        w.entry < w.objects[w.object as int].needed.len(),
        w.is_reported_to(w.object, w.entry),
        resolution is Found ==> w.keys.contains(place),
    ensures
        w.recorded(found, resolution, place).objects_are_distinct(),
        w.recorded(found, resolution, place).libraries_are_distinct(),
        w.recorded(found, resolution, place).findings_are_justified(),
        w.recorded(found, resolution, place).is_reported_to(w.object, w.entry + 1),
{
    let after = w.recorded(found, resolution, place);
    let requirer = w.label_of(w.object as int);
    let name = w.name();
    lemma_library_at(w.libraries, name);
    assert(w.objects[w.object as int].needed.contains(name));
    assert(w.needs(requirer, name));
    assert forall|label: Seq<char>, other: Seq<char>| w.needs(label, other) implies #[trigger]
    after.needs(label, other) by {
        let o = choose|o: int|
            0 <= o < w.objects.len() && #[trigger] w.label_of(o) == label
                && w.objects[o].needed.contains(other);
        assert(after.label_of(o) == label);
    }
    let at = match library_at(w.libraries, name) {
        Some(i) => i,
        None => w.libraries.len() as int,
    };
    assert(after.libraries[at].needed_by.contains(requirer)) by {
        match library_at(w.libraries, name) {
            Some(i) => {
                if !w.libraries[i].needed_by.contains(requirer) {
                    let by = w.libraries[i].needed_by;
                    assert(by.push(requirer)[by.len() as int] == requirer);
                }
            },
            None => {
                assert(seq![requirer][0] == requirer);
            },
        }
    }
    assert forall|i: int| 0 <= i < w.libraries.len() && i != at implies #[trigger] after.libraries[i]
        == w.libraries[i] by {}
    assert(after.reports(requirer, name)) by {
        assert(after.libraries[at].name == name);
    }
    assert forall|label: Seq<char>, other: Seq<char>| w.reports(label, other) implies #[trigger]
    after.reports(label, other) by {
        let i = choose|i: int|
            0 <= i < w.libraries.len() && (#[trigger] w.libraries[i]).name == other
                && w.libraries[i].needed_by.contains(label);
        if i == at {
            let by = w.libraries[i].needed_by;
            let k = choose|k: int| 0 <= k < by.len() && by[k] == label;
            assert(after.libraries[i].needed_by[k] == label);
            assert(after.libraries[i].needed_by.contains(label));
        } else {
            assert(after.libraries[i] == w.libraries[i]);
        }
        assert(after.libraries[i].name == other);
    }
    assert forall|i: int, j: int|
        0 <= i < after.libraries.len() && 0 <= j
            < after.libraries[i].needed_by.len() implies after.needs(
        #[trigger] after.libraries[i].needed_by[j],
        after.libraries[i].name,
    ) by {
        let label = after.libraries[i].needed_by[j];
        if i != at {
            assert(after.libraries[i] == w.libraries[i]);
            assert(w.needs(w.libraries[i].needed_by[j], w.libraries[i].name));
        } else if i < w.libraries.len() && j < w.libraries[i].needed_by.len() {
            assert(w.libraries[i].needed_by[j] == label);
            assert(w.needs(w.libraries[i].needed_by[j], w.libraries[i].name));
        } else {
            assert(label == requirer);
        }
        assert(after.needs(label, after.libraries[i].name));
    }
    assert forall|i: int| 0 <= i < after.libraries.len() implies (
    #[trigger] after.libraries[i]).needed_by.no_duplicates() && after.libraries[i].needed_by.len()
        > 0 by {
        if i == at && i < w.libraries.len() {
            let by = w.libraries[i].needed_by;
            assert(w.libraries[i].needed_by.no_duplicates());
            if !by.contains(requirer) {
                let more = by.push(requirer);
                assert forall|a: int, b: int| 0 <= a < b < more.len() implies more[a] != more[b] by {
                    if b == by.len() {
                        assert(more[a] == by[a]);
                    }
                }
            }
        }
    }
    assert forall|o: int, e: int|
        0 <= o < after.objects.len() && 0 <= e < after.objects[o].needed.len() && is_before(
            o,
            e,
            w.object,
            w.entry + 1,
        ) implies after.reports(
        after.label_of(o),
        #[trigger] after.objects[o].needed[e],
    ) by {
        assert(after.label_of(o) == w.label_of(o));
        if is_before(o, e, w.object, w.entry) {
            assert(w.reports(w.label_of(o), w.objects[o].needed[e]));
        } else {
            assert(o == w.object && e == w.entry);
        }
    }
}

/// `cursor_from` passes over nothing that there is.
proof fn lemma_cursor(objects: Seq<ElfView>, object: nat, entry: nat)
    requires
        object <= objects.len(),
    ensures
        ({
            let next = cursor_from(objects, object, entry);
            &&& object <= next.0 <= objects.len()
            &&& next.0 < objects.len() ==> next.1 < objects[next.0 as int].needed.len()
            &&& forall|o: int, e: int|
                0 <= o < objects.len() && 0 <= e < objects[o].needed.len() && #[trigger] is_before(
                    o,
                    e,
                    next.0,
                    next.1,
                ) ==> is_before(o, e, object, entry)
        }),
    decreases objects.len() - object,
{
    if object < objects.len() && entry >= objects[object as int].needed.len() {
        lemma_cursor(objects, object + 1, 0);
        let next = cursor_from(objects, object, entry);
        assert forall|o: int, e: int|
            0 <= o < objects.len() && 0 <= e < objects[o].needed.len() && #[trigger] is_before(
                o,
                e,
                next.0,
                next.1,
            ) implies is_before(o, e, object, entry) by {
            assert(is_before(o, e, object + 1, 0));
        }
    }
}

/// The next entry is looked for when this one is reported.
proof fn lemma_advanced(w: WalkView)
    requires
        w.objects_are_distinct(),
        w.libraries_are_distinct(),
        w.findings_are_justified(),
        w.object <= w.objects.len(),
        w.is_reported_to(w.object, w.entry + 1),
        w.loading is None,
    ensures
        w.advanced().sound(),
{
    let after = w.advanced();
    lemma_cursor(w.objects, w.object, w.entry + 1);
    assert forall|label: Seq<char>, name: Seq<char>| w.needs(label, name) implies #[trigger]
    after.needs(label, name) by {
        let o = choose|o: int|
            0 <= o < w.objects.len() && #[trigger] w.label_of(o) == label
                && w.objects[o].needed.contains(name);
        assert(after.label_of(o) == label);
    }
    assert forall|i: int, j: int|
        0 <= i < after.libraries.len() && 0 <= j
            < after.libraries[i].needed_by.len() implies after.needs(
        #[trigger] after.libraries[i].needed_by[j],
        after.libraries[i].name,
    ) by {
        assert(w.needs(w.libraries[i].needed_by[j], w.libraries[i].name));
    }
    assert forall|o: int, e: int|
        0 <= o < after.objects.len() && 0 <= e < after.objects[o].needed.len() && is_before(
            o,
            e,
            after.object,
            after.entry,
        ) implies after.reports(
        after.label_of(o),
        #[trigger] after.objects[o].needed[e],
    ) by {
        assert(is_before(o, e, w.object, w.entry + 1));
        assert(w.reports(w.label_of(o), w.objects[o].needed[e]));
        let i = choose|i: int|
            0 <= i < w.libraries.len() && (#[trigger] w.libraries[i]).name
                == w.objects[o].needed[e] && w.libraries[i].needed_by.contains(w.label_of(o));
        assert(after.libraries[i].name == after.objects[o].needed[e]);
    }
}

/// A walk that starts is sound.
pub proof fn a_walk_starts_sound(
    label: Seq<char>,
    key: Seq<char>,
    root: ElfView,
    resolver: ResolverView,
    arch: Seq<char>,
)
    ensures
        start_of(label, key, root, resolver, arch).sound(),
{
    let w = start_of(label, key, root, resolver, arch);
    lemma_cursor(seq![root], 0, 0);
    assert forall|o: int, e: int|
        0 <= o < w.objects.len() && 0 <= e < w.objects[o].needed.len() && is_before(
            o,
            e,
            w.object,
            w.entry,
        ) implies w.reports(w.label_of(o), #[trigger] w.objects[o].needed[e]) by {
        assert(is_before(o, e, 0, 0));
    }
}

/// Probing keeps a walk sound.
pub proof fn probing_keeps_a_walk_sound(w: WalkView, probes: Seq<ProbeView>)
    requires
        w.sound(),
    ensures
        w.located(probes).sound(),
{
    if w.want() is Locate {
        let outcome = resolve::searched(w.candidates(), probes, Some(w.wanted()));
        let key = resolve::taken_key(w.candidates().len(), probes, Some(w.wanted()));
        match outcome {
            OutcomeView::Found(path) => {
                if w.keys.contains(key) {
                    let resolution = ResolutionView::Found(path);
                    lemma_recorded(w, Some((path, key)), resolution, key);
                    lemma_advanced(w.recorded(Some((path, key)), resolution, key));
                } else {
                    match table::known(w.failed, key) {
                        Some(error) => {
                            let resolution = ResolutionView::Unusable {
                                path: key,
                                reason: unparsed_text(error),
                            };
                            lemma_recorded(w, Some((path, key)), resolution, Seq::empty());
                            lemma_advanced(
                                w.recorded(Some((path, key)), resolution, Seq::empty()),
                            );
                        },
                        None => {
                            lemma_kept(w, WalkView { loading: Some((path, key)), ..w });
                        },
                    }
                }
            },
            _ => {
                let resolution = resolution_of(outcome, w.wanted().machine);
                lemma_recorded(w, None, resolution, Seq::empty());
                lemma_advanced(w.recorded(None, resolution, Seq::empty()));
            },
        }
    }
}

/// What a walk says of libraries stays true where objects are added behind
/// those that there are.
proof fn lemma_kept(w: WalkView, after: WalkView)
    requires
        w.objects_are_distinct(),
        w.libraries_are_distinct(),
        w.findings_are_justified(),
        w.is_reported_to(w.object, w.entry),
        w.object < w.objects.len(),
        after.label == w.label,
        after.libraries == w.libraries,
        after.places == w.places,
        after.object == w.object,
        after.entry == w.entry,
        w.objects.is_prefix_of(after.objects),
        w.keys.is_prefix_of(after.keys),
        after.keys.len() == after.objects.len(),
    ensures
        after.libraries_are_distinct(),
        after.findings_are_justified(),
        after.is_reported_to(after.object, after.entry),
{
    assert forall|o: int| 0 <= o < w.objects.len() implies #[trigger] after.label_of(o)
        == w.label_of(o) && after.objects[o] == w.objects[o] by {
        assert(after.keys[o] == w.keys[o]);
        assert(after.objects[o] == w.objects[o]);
    }
    assert forall|key: Seq<char>| w.keys.contains(key) implies #[trigger] after.keys.contains(
        key,
    ) by {
        let k = choose|k: int| 0 <= k < w.keys.len() && w.keys[k] == key;
        assert(after.keys[k] == key);
    }
    assert forall|i: int, j: int|
        0 <= i < after.libraries.len() && 0 <= j
            < after.libraries[i].needed_by.len() implies after.needs(
        #[trigger] after.libraries[i].needed_by[j],
        after.libraries[i].name,
    ) by {
        let label = w.libraries[i].needed_by[j];
        let name = w.libraries[i].name;
        assert(w.needs(w.libraries[i].needed_by[j], name));
        let o = choose|o: int|
            0 <= o < w.objects.len() && #[trigger] w.label_of(o) == label
                && w.objects[o].needed.contains(name);
        assert(after.label_of(o) == label);
    }
    assert forall|o: int, e: int|
        0 <= o < after.objects.len() && 0 <= e < after.objects[o].needed.len() && is_before(
            o,
            e,
            after.object,
            after.entry,
        ) implies after.reports(
        after.label_of(o),
        #[trigger] after.objects[o].needed[e],
    ) by {
        assert(after.label_of(o) == w.label_of(o));
        assert(w.reports(w.label_of(o), w.objects[o].needed[e]));
        let i = choose|i: int|
            0 <= i < w.libraries.len() && (#[trigger] w.libraries[i]).name
                == w.objects[o].needed[e] && w.libraries[i].needed_by.contains(w.label_of(o));
        assert(after.libraries[i].name == after.objects[o].needed[e]);
    }
}

/// Loading keeps a walk sound.
pub proof fn loading_keeps_a_walk_sound(w: WalkView, content: Result<Seq<u8>, Seq<char>>)
    requires
        w.sound(),
    ensures
        w.loaded(content).sound(),
{
    match w.loading {
        None => {},
        Some((path, key)) => match elf::parsed_file(key, content) {
            Ok(object) => {
                let next = WalkView {
                    keys: w.keys.push(key),
                    objects: w.objects.push(object),
                    loading: None,
                    ..w
                };
                assert(w.objects.is_prefix_of(next.objects));
                assert(w.keys.is_prefix_of(next.keys));
                lemma_kept(w, next);
                assert(next.objects_are_distinct()) by {
                    table::lemma_unknown(w.failed, key);
                    assert forall|a: int, b: int| 0 <= a < b < next.keys.len() implies next.keys[a]
                        != next.keys[b] by {
                        if b == w.keys.len() {
                            assert(next.keys[a] == w.keys[a]);
                            assert(w.keys.contains(w.keys[a]));
                        }
                    }
                    assert forall|j: int| 0 <= j < next.failed.len() implies !next.keys.contains(
                        (#[trigger] next.failed[j]).0,
                    ) by {
                        let name = next.failed[j].0;
                        if next.keys.contains(name) {
                            let k = choose|k: int| 0 <= k < next.keys.len() && next.keys[k] == name;
                            if k < w.keys.len() {
                                assert(w.keys[k] == name);
                                assert(w.keys.contains(w.failed[j].0));
                            }
                        }
                    }
                }
                let resolution = ResolutionView::Found(path);
                assert(next.keys[w.keys.len() as int] == key);
                lemma_recorded(next, Some((path, key)), resolution, key);
                lemma_advanced(next.recorded(Some((path, key)), resolution, key));
            },
            Err(error) => {
                let next = WalkView {
                    failed: w.failed.push((key, error.text())),
                    loading: None,
                    ..w
                };
                lemma_kept(w, next);
                assert(next.objects_are_distinct()) by {
                    assert forall|j: int| 0 <= j < next.failed.len() implies !next.keys.contains(
                        (#[trigger] next.failed[j]).0,
                    ) by {
                        if j < w.failed.len() {
                            assert(next.failed[j] == w.failed[j]);
                        }
                    }
                }
                let resolution = ResolutionView::Unusable {
                    path: key,
                    reason: unparsed_text(error.text()),
                };
                lemma_recorded(next, Some((path, key)), resolution, Seq::empty());
                let after = next.recorded(Some((path, key)), resolution, Seq::empty());
                let noted = WalkView {
                    notes: after.notes.push(unread_text(path, error.text())),
                    ..after
                };
                assert(noted.is_reported_to(w.object, w.entry + 1)) by {
                    lemma_same_findings(after, noted, w.object, w.entry + 1);
                }
                assert(noted.findings_are_justified()) by {
                    lemma_same_findings(after, noted, w.object, w.entry + 1);
                }
                lemma_advanced(noted);
            },
        },
    }
}

/// Notes have no part in what is reported.
proof fn lemma_same_findings(w: WalkView, noted: WalkView, object: nat, entry: nat)
    requires
        noted == (WalkView { notes: noted.notes, ..w }),
        w.findings_are_justified(),
        w.is_reported_to(object, entry),
    ensures
        noted.findings_are_justified(),
        noted.is_reported_to(object, entry),
{
    assert forall|o: int| #[trigger] noted.label_of(o) == w.label_of(o) by {}
    assert forall|i: int, j: int|
        0 <= i < noted.libraries.len() && 0 <= j
            < noted.libraries[i].needed_by.len() implies noted.needs(
        #[trigger] noted.libraries[i].needed_by[j],
        noted.libraries[i].name,
    ) by {
        let label = w.libraries[i].needed_by[j];
        let name = w.libraries[i].name;
        assert(w.needs(w.libraries[i].needed_by[j], name));
        let o = choose|o: int|
            0 <= o < w.objects.len() && #[trigger] w.label_of(o) == label
                && w.objects[o].needed.contains(name);
        assert(noted.label_of(o) == label);
    }
    assert forall|o: int, e: int|
        0 <= o < noted.objects.len() && 0 <= e < noted.objects[o].needed.len() && is_before(
            o,
            e,
            object,
            entry,
        ) implies noted.reports(
        noted.label_of(o),
        #[trigger] noted.objects[o].needed[e],
    ) by {
        assert(noted.label_of(o) == w.label_of(o));
        assert(w.reports(w.label_of(o), w.objects[o].needed[e]));
        let i = choose|i: int|
            0 <= i < w.libraries.len() && (#[trigger] w.libraries[i]).name
                == w.objects[o].needed[e] && w.libraries[i].needed_by.contains(w.label_of(o));
        assert(noted.libraries[i].name == noted.objects[o].needed[e]);
    }
}

// ---------------------------------------------------------------------------
// Walking
// ---------------------------------------------------------------------------

/// Finds a library among the findings.
pub fn find_library(libraries: &Vec<LibraryFinding>, name: &str) -> (r: Option<usize>)
    ensures
        r is Some <==> library_at(libraries.deep_view(), name@) is Some,
        r matches Some(i) ==> i < libraries@.len() && library_at(libraries.deep_view(), name@)
            == Some(i as int),
{
    let ghost all = libraries.deep_view();
    let mut i: usize = 0;
    assert(all.take(0) =~= Seq::<LibraryView>::empty());
    while i < libraries.len()
        invariant
            i <= libraries@.len(),
            all == libraries.deep_view(),
            library_at(all.take(i as int), name@) is None,
        decreases libraries@.len() - i,
    {
        assert(all.take(i + 1).drop_last() =~= all.take(i as int));
        assert(all[i as int] == libraries@[i as int].deep_view());
        if text::same_text(libraries[i].name.as_str(), name) {
            proof {
                lemma_library_stays(all, i + 1, name@);
            }
            return Some(i);
        }
        i += 1;
    }
    assert(all.take(i as int) =~= all);
    None
}

/// A library in front is the one that is found.
proof fn lemma_library_stays(libraries: Seq<LibraryView>, n: int, name: Seq<char>)
    requires
        0 <= n <= libraries.len(),
        library_at(libraries.take(n), name) is Some,
    ensures
        library_at(libraries, name) == library_at(libraries.take(n), name),
    decreases libraries.len() - n,
{
    if n < libraries.len() {
        assert(libraries.take(n + 1).drop_last() =~= libraries.take(n));
        lemma_library_stays(libraries, n + 1, name);
    } else {
        assert(libraries.take(n) =~= libraries);
    }
}

/// Whether an outcome takes the place of an earlier one.
fn supersedes(old: &LibResolution, gave_a_file: bool, new: &LibResolution) -> (r: bool)
    ensures
        r == replaces(old.deep_view(), gave_a_file, new.deep_view()),
{
    let both_unusable: bool = match (old, new) {
        (LibResolution::Unusable { .. }, LibResolution::Unusable { .. }) => true,
        _ => false,
    };
    resolution_rank(new) > resolution_rank(old) || (gave_a_file && both_unusable)
}

/// Notes that one name leads to two files.
fn two_files(name: &str, a: &str, b: &str) -> (r: String)
    ensures
        r@ == two_files_text(name@, a@, b@),
{
    let mut out: String = String::new();
    out.append(name);
    out.append(" resolves to more than one file (");
    out.append(a);
    out.append(" and ");
    out.append(b);
    out.append(")");
    assert(out@ =~= two_files_text(name@, a@, b@));
    out
}

/// Says why an object that does not parse cannot be used.
fn unparsed(error: &str) -> (r: String)
    ensures
        r@ == unparsed_text(error@),
{
    let mut out: String = String::new();
    out.append("could not be parsed (");
    out.append(error);
    out.append(")");
    assert(out@ =~= unparsed_text(error@));
    out
}

/// Notes an object that does not parse.
fn unread(path: &str, error: &str) -> (r: String)
    ensures
        r@ == unread_text(path@, error@),
{
    let mut out: String = String::new();
    out.append("could not read ");
    out.append(path);
    out.append(": ");
    out.append(error);
    assert(out@ =~= unread_text(path@, error@));
    out
}

/// The first object and entry from here on that there is.
fn next_cursor(objects: &Vec<ElfFile>, object: usize, entry: usize) -> (r: (usize, usize))
    requires
        object <= objects@.len(),
    ensures
        (r.0 as nat, r.1 as nat) == cursor_from(objects.deep_view(), object as nat, entry as nat),
{
    let ghost all = objects.deep_view();
    let mut o: usize = object;
    let mut e: usize = entry;
    while o < objects.len() && e >= objects[o].needed.len()
        invariant
            o <= objects@.len(),
            all == objects.deep_view(),
            cursor_from(all, object as nat, entry as nat) == cursor_from(all, o as nat, e as nat),
        decreases objects@.len() - o,
    {
        assert(all[o as int] == objects@[o as int].deep_view());
        o += 1;
        e = 0;
    }
    assert(o < objects@.len() ==> all[o as int] == objects@[o as int].deep_view());
    (o, e)
}

/// Notes what there is to note of a root object.
fn note_root(root: &ElfFile) -> (r: Vec<String>)
    ensures
        r.deep_view() == root_notes(root.deep_view()),
{
    let mut notes: Vec<String> = Vec::new();
    assert(notes.deep_view() =~= Seq::<Seq<char>>::empty());
    let executable: bool = match root.etype {
        ElfType::Executable => true,
        _ => false,
    };
    if executable && root.interpreter.is_none() && !root.has_dynamic {
        notes.push(
            "statically linked: no dynamic loader and no shared library dependencies".to_owned(),
        );
        assert(notes.deep_view() =~= root_notes(root.deep_view()));
    }
    notes
}

impl Walk {
    /// Starts a walk from a root object. `label` is what the report calls it,
    /// `key` its canonical path, and `arch` the architecture of the host.
    pub fn new(label: &str, key: &str, root: ElfFile, resolver: Resolver, arch: &str) -> (r: Self)
        ensures
            r.deep_view() == start_of(
                label@,
                key@,
                root.deep_view(),
                resolver.deep_view(),
                arch@,
            ),
            r.deep_view().sound(),
    {
        let ghost root_view = root.deep_view();
        let notes: Vec<String> = note_root(&root);
        let mut keys: Vec<String> = Vec::new();
        keys.push(key.to_owned());
        assert(keys.deep_view() =~= seq![key@]);
        let mut objects: Vec<ElfFile> = Vec::new();
        objects.push(root);
        assert(objects.deep_view() =~= seq![root_view]);
        let (object, entry): (usize, usize) = next_cursor(&objects, 0, 0);
        let r: Walk = Walk {
            label: label.to_owned(),
            arch: arch.to_owned(),
            resolver,
            keys,
            objects,
            failed: Vec::new(),
            object,
            entry,
            loading: None,
            libraries: Vec::new(),
            places: Vec::new(),
            notes,
        };
        proof {
            assert(r.failed.deep_view() =~= Seq::<(Seq<char>, Seq<char>)>::empty());
            assert(r.libraries.deep_view() =~= Seq::<LibraryView>::empty());
            assert(r.places.deep_view() =~= Seq::<Seq<char>>::empty());
            a_walk_starts_sound(label@, key@, root_view, resolver.deep_view(), arch@);
        }
        r
    }

    /// The places where the name that is looked for may be.
    fn places_to_look(&self) -> (r: Vec<String>)
        requires
            self.deep_view().sound(),
            self.object < self.objects@.len(),
        ensures
            r.deep_view() == self.deep_view().candidates(),
    {
        let arch: &str = self.arch.as_str();
        let object: &ElfFile = &self.objects[self.object];
        let root_rpath: Vec<String> = rpath_dirs(&self.objects[0], arch);
        let (rpath, runpath): (Vec<String>, Vec<String>) = load_dirs(
            object,
            self.object == 0,
            &root_rpath,
            arch,
        );
        assert(self.deep_view().objects[self.object as int] == object.deep_view());
        assert(self.deep_view().objects[0] == self.objects@[0].deep_view());
        assert(object.deep_view().needed[self.entry as int] == object.needed@[self.entry as int]@);
        assert(rpath.deep_view() =~= self.deep_view().rpath_of(self.object as int));
        self.resolver.candidates(
            object.needed[self.entry].as_str(),
            rpath.as_slice(),
            runpath.as_slice(),
        )
    }

    /// What has to be known next.
    pub fn request(&self) -> (r: Request)
        requires
            self.deep_view().sound(),
        ensures
            r.deep_view() == self.deep_view().want(),
    {
        match &self.loading {
            Some((_, key)) => Request::Load { key: key.clone() },
            None => {
                if self.object < self.objects.len() {
                    assert(self.deep_view().objects[self.object as int]
                        == self.objects@[self.object as int].deep_view());
                    Request::Locate {
                        candidates: self.places_to_look(),
                        wanted: ElfIdentity::of(&self.objects[self.object]),
                    }
                } else {
                    Request::Done
                }
            },
        }
    }

    /// What the report calls the object whose libraries are looked for.
    fn requirer(&self) -> (r: String)
        requires
            self.object < self.keys@.len(),
        ensures
            r@ == self.deep_view().label_of(self.object as int),
    {
        if self.object == 0 {
            self.label.clone()
        } else {
            self.keys[self.object].clone()
        }
    }

    /// Records an outcome for the name that is looked for.
    fn record(&mut self, found: Option<(&str, &str)>, resolution: LibResolution, place: String)
        requires
            old(self).deep_view().object < old(self).deep_view().objects.len(),
            old(self).deep_view().entry < old(self).deep_view().objects[old(
                self,
            ).deep_view().object as int].needed.len(),
            old(self).deep_view().keys.len() == old(self).deep_view().objects.len(),
            old(self).deep_view().places.len() == old(self).deep_view().libraries.len(),
        ensures
            final(self).deep_view() == old(self).deep_view().recorded(
                found.deep_view(),
                resolution.deep_view(),
                place@,
            ),
    {
        let ghost before = self.deep_view();
        let ghost new_place = place@;
        assert(before.objects[before.object as int]
            == self.objects@[self.object as int].deep_view());
        let name: String = self.objects[self.object].needed[self.entry].clone();
        assert(name@ == before.name());
        let requirer: String = self.requirer();
        let ghost label = requirer@;
        match find_library(&self.libraries, name.as_str()) {
            None => {
                let mut needed_by: Vec<String> = Vec::new();
                needed_by.push(requirer);
                assert(needed_by.deep_view() =~= seq![label]);
                let finding: LibraryFinding = LibraryFinding { name, needed_by, resolution };
                let ghost added = finding.deep_view();
                self.libraries.push(finding);
                self.places.push(place);
                assert(self.libraries.deep_view() =~= before.libraries.push(added));
                assert(self.places.deep_view() =~= before.places.push(new_place));
            },
            Some(i) => {
                proof {
                    lemma_library_at(before.libraries, name@);
                }
                let ghost old_library = before.libraries[i as int];
                assert(old_library == self.libraries@[i as int].deep_view());
                assert(before.places[i as int] == self.places@[i as int]@);
                match (&self.libraries[i].resolution, found) {
                    (LibResolution::Found(previous), Some((current, key))) => {
                        if !text::same_text(self.places[i].as_str(), key) {
                            let note: String = two_files(
                                name.as_str(),
                                previous.as_str(),
                                current,
                            );
                            let ghost text = note@;
                            self.notes.push(note);
                            assert(self.notes.deep_view() =~= before.notes.push(text));
                        }
                    },
                    _ => {},
                }
                let mut needed_by: Vec<String> = Vec::new();
                push_all(&mut needed_by, &self.libraries[i].needed_by);
                assert(needed_by.deep_view() =~= old_library.needed_by);
                if !text::has_text(&needed_by, requirer.as_str()) {
                    needed_by.push(requirer);
                    assert(needed_by.deep_view() =~= old_library.needed_by.push(label));
                }
                let stands: bool = supersedes(
                    &self.libraries[i].resolution,
                    found.is_some(),
                    &resolution,
                );
                let kept: LibResolution = if stands {
                    resolution
                } else {
                    copy_resolution(&self.libraries[i].resolution)
                };
                let finding: LibraryFinding = LibraryFinding { name, needed_by, resolution: kept };
                let ghost added = finding.deep_view();
                self.libraries.set(i, finding);
                assert(self.libraries.deep_view() =~= before.libraries.update(i as int, added));
                if stands {
                    self.places.set(i, place);
                    assert(self.places.deep_view() =~= before.places.update(i as int, new_place));
                }
            },
        }
    }

    /// Turns to the next entry.
    fn advance(&mut self)
        requires
            old(self).deep_view().object < old(self).deep_view().objects.len(),
            old(self).deep_view().entry < old(self).deep_view().objects[old(
                self,
            ).deep_view().object as int].needed.len(),
        ensures
            final(self).deep_view() == old(self).deep_view().advanced(),
    {
        assert(self.deep_view().objects[self.object as int]
            == self.objects@[self.object as int].deep_view());
        assert(self.entry < self.objects@[self.object as int].needed@.len());
        let n: usize = self.objects[self.object].needed.len();
        assert(self.entry < n);
        let (object, entry): (usize, usize) = next_cursor(
            &self.objects,
            self.object,
            self.entry + 1,
        );
        self.object = object;
        self.entry = entry;
    }

    /// Takes in what stands at the places that were asked for. Where something
    /// else was asked for, nothing changes.
    pub fn located(&mut self, probes: &[Probe])
        requires
            old(self).deep_view().sound(),
        ensures
            final(self).deep_view() == old(self).deep_view().located(probes.deep_view()),
            final(self).deep_view().sound(),
    {
        proof {
            probing_keeps_a_walk_sound(self.deep_view(), probes.deep_view());
        }
        if self.loading.is_some() || self.object >= self.objects.len() {
            return;
        }
        let ghost before = self.deep_view();
        assert(before.objects[self.object as int] == self.objects@[self.object as int].deep_view());
        let candidates: Vec<String> = self.places_to_look();
        let wanted: ElfIdentity = ElfIdentity::of(&self.objects[self.object]);
        assert(candidates@.len() == candidates.deep_view().len());
        let Located { outcome, key } = resolve::locate(&candidates, Some(wanted), probes);
        match outcome {
            SearchOutcome::Found(path) => {
                if text::has_text(&self.keys, key.as_str()) {
                    let place: String = key.clone();
                    self.record(
                        Some((path.as_str(), key.as_str())),
                        LibResolution::Found(path.clone()),
                        place,
                    );
                    self.advance();
                    return;
                }
                match table::find(&self.failed, key.as_str()) {
                    Some(i) => {
                        assert(self.failed.deep_view()[i as int].1 == self.failed@[i as int].1@);
                        let reason: String = unparsed(self.failed[i].1.as_str());
                        self.record(
                            Some((path.as_str(), key.as_str())),
                            LibResolution::Unusable { path: key.clone(), reason },
                            String::new(),
                        );
                        self.advance();
                    },
                    None => {
                        self.loading = Some((path, key));
                    },
                }
            },
            other => {
                let resolution: LibResolution = resolve_outcome(other, wanted.machine);
                self.record(None, resolution, String::new());
                self.advance();
            },
        }
    }

    /// Takes in the content of the file that was asked for, or why it could not
    /// be read. Where something else was asked for, nothing changes.
    pub fn loaded(&mut self, content: &Result<Vec<u8>, String>)
        requires
            old(self).deep_view().sound(),
        ensures
            final(self).deep_view() == old(self).deep_view().loaded(elf::content_of(*content)),
            final(self).deep_view().sound(),
    {
        proof {
            loading_keeps_a_walk_sound(self.deep_view(), elf::content_of(*content));
        }
        let ghost before = self.deep_view();
        let (path, key): (String, String) = match &self.loading {
            Some((path, key)) => (path.clone(), key.clone()),
            None => {
                return;
            },
        };
        self.loading = None;
        match ElfFile::parse(key.as_str(), content) {
            Ok(object) => {
                let ghost added = object.deep_view();
                self.keys.push(key.clone());
                self.objects.push(object);
                assert(self.keys.deep_view() =~= before.keys.push(key@));
                assert(self.objects.deep_view() =~= before.objects.push(added));
                let place: String = key.clone();
                self.record(
                    Some((path.as_str(), key.as_str())),
                    LibResolution::Found(path.clone()),
                    place,
                );
                self.advance();
            },
            Err(error) => {
                let error: String = error.message();
                self.failed.push((key.clone(), error.clone()));
                assert(self.failed.deep_view() =~= before.failed.push((key@, error@)));
                let reason: String = unparsed(error.as_str());
                self.record(
                    Some((path.as_str(), key.as_str())),
                    LibResolution::Unusable { path: key.clone(), reason },
                    String::new(),
                );
                let ghost notes = self.notes.deep_view();
                let note: String = unread(path.as_str(), error.as_str());
                let ghost text = note@;
                self.notes.push(note);
                assert(self.notes.deep_view() =~= notes.push(text));
                self.advance();
            },
        }
    }
}

/// A copy of a resolution.
fn copy_resolution(resolution: &LibResolution) -> (r: LibResolution)
    ensures
        r.deep_view() == resolution.deep_view(),
{
    match resolution {
        LibResolution::Found(path) => LibResolution::Found(path.clone()),
        LibResolution::WrongArchitecture { path, found, wanted } =>
            LibResolution::WrongArchitecture { path: path.clone(), found: *found, wanted: *wanted },
        LibResolution::Unusable { path, reason } => LibResolution::Unusable {
            path: path.clone(),
            reason: reason.clone(),
        },
        LibResolution::Missing => LibResolution::Missing,
    }
}

// ---------------------------------------------------------------------------
// Putting it together
// ---------------------------------------------------------------------------

/// What the machine says of a program.
#[derive(Debug)]
pub struct ElfFacts {
    /// What the file system says of the program.
    pub file: Option<FileFacts>,
    /// What the file system says of the interpreter that it names.
    pub interpreter: Option<FileFacts>,
    /// The content of the interpreter, or why it could not be read.
    pub loader: Result<Vec<u8>, String>,
    pub env: Environment,
}

/// What an [`ElfFacts`] holds.
pub struct ElfFactsView {
    pub file: Option<FileFacts>,
    pub interpreter: Option<FileFacts>,
    pub loader: Result<Seq<u8>, Seq<char>>,
    pub env: EnvironmentView,
}

impl DeepView for ElfFacts {
    type V = ElfFactsView;

    open spec fn deep_view(&self) -> ElfFactsView {
        ElfFactsView {
            file: self.file,
            interpreter: self.interpreter,
            loader: elf::content_of(self.loader),
            env: self.env.deep_view(),
        }
    }
}

/// What an object is that cannot be run at all. A relocatable object or a core
/// dump is not a program: saying "no problems found" for one would contradict
/// the report itself.
pub open spec fn no_program_text(root: ElfView) -> Option<Seq<char>> {
    if root.etype is Relocatable {
        Some("this is a relocatable object (.o), not something that can be run"@)
    } else if root.etype is Core {
        Some("this is a core dump, not a program"@)
    } else {
        None
    }
}

/// What is known of the interpreter that an object names. A loader the kernel
/// cannot exec (not ELF, truncated, wrong class or machine) fails before any
/// library is searched for.
pub open spec fn loader_of(root: ElfView, facts: ElfFactsView) -> Option<InterpreterView> {
    match root.interpreter {
        None => None,
        Some(path) => Some(
            InterpreterView {
                path,
                exists: facts.interpreter is Some,
                executable: host::runs(facts.interpreter),
                problem: if host::runs(facts.interpreter) {
                    host::loader_problem(root, path, facts.loader)
                } else {
                    None
                },
            },
        ),
    }
}

impl WalkView {
    /// What the report calls each object.
    pub open spec fn labels(self) -> Seq<Seq<char>> {
        Seq::new(self.objects.len(), |i: int| self.label_of(i))
    }

    /// What version questions are answered by.
    pub open spec fn graph(self) -> link::Graph {
        link::graph_of(self.keys, self.objects, self.libraries, self.places)
    }

    /// Everything that was learned about the root object.
    pub open spec fn analysis(self, facts: ElfFactsView) -> AnalysisView {
        let root = self.objects[0];
        AnalysisView {
            path: self.label,
            kind: KindView::Elf(root),
            not_a_program: no_program_text(root),
            arch: Some(host::arch_of(root, self.arch)),
            permissions: if root.runnable() {
                host::permissions_of(self.keys[0], facts.file)
            } else {
                None
            },
            interpreter: loader_of(root, facts),
            libraries: self.libraries,
            unresolved: link::unresolved_of(self.objects, self.labels()),
            version_problems: self.graph().version_problems(self.labels()),
            env: host::env_notes(facts.env),
            notes: self.notes,
        }
    }
}

/// Says what an object is that cannot be run.
fn no_program(root: &ElfFile) -> (r: Option<String>)
    ensures
        r.deep_view() == no_program_text(root.deep_view()),
{
    match root.etype {
        ElfType::Relocatable => Some(
            "this is a relocatable object (.o), not something that can be run".to_owned(),
        ),
        ElfType::Core => Some("this is a core dump, not a program".to_owned()),
        _ => None,
    }
}

/// Checks the interpreter that an object names.
fn find_loader(root: &ElfFile, facts: &ElfFacts) -> (r: Option<InterpreterFinding>)
    ensures
        r.deep_view() == loader_of(root.deep_view(), facts.deep_view()),
{
    match &root.interpreter {
        None => None,
        Some(path) => {
            let mut seen: Vec<Option<FileFacts>> = Vec::new();
            seen.push(facts.interpreter);
            let mut finding: InterpreterFinding = host::interpreter_finding(
                path.as_str(),
                false,
                None,
                seen.as_slice(),
            );
            if finding.exists && finding.executable {
                finding.problem = host::interpreter_problem(root, path.as_str(), &facts.loader);
            }
            Some(finding)
        },
    }
}

/// Puts together what a walk found and what the machine says.
pub fn analyze_elf(walk: Walk, facts: &ElfFacts) -> (r: Analysis)
    requires
        walk.deep_view().sound(),
    ensures
        r.deep_view() == walk.deep_view().analysis(facts.deep_view()),
{
    let ghost w = walk.deep_view();
    let Walk {
        label,
        arch,
        resolver: _,
        keys,
        objects,
        failed: _,
        object: _,
        entry: _,
        loading: _,
        libraries,
        places,
        notes,
    } = walk;
    let mut objects: Vec<ElfFile> = objects;
    assert(objects@.len() == w.objects.len());
    assert(keys@.len() == w.keys.len());
    assert(libraries@.len() == w.libraries.len());
    assert(places@.len() == w.places.len());
    let mut labels: Vec<String> = Vec::new();
    labels.push(label.clone());
    assert(labels.deep_view() =~= w.labels().take(1));
    let mut i: usize = 1;
    while i < keys.len()
        invariant
            1 <= i <= keys@.len(),
            w.keys == keys.deep_view(),
            w.keys.len() == w.objects.len(),
            labels.deep_view() == w.labels().take(i as int),
        decreases keys@.len() - i,
    {
        let ghost so_far = labels.deep_view();
        labels.push(keys[i].clone());
        assert(labels.deep_view() =~= so_far.push(w.keys[i as int]));
        assert(w.labels()[i as int] == w.keys[i as int]);
        i += 1;
        assert(labels.deep_view() =~= w.labels().take(i as int));
    }
    assert(w.labels().take(i as int) =~= w.labels());
    assert(labels@.len() == labels.deep_view().len());
    let unresolved: Vec<super::UnresolvedSymbol> = link::unresolved_symbols(&objects, &labels);
    let version_problems: Vec<super::VersionProblem> = link::version_problems(
        &keys,
        &objects,
        &libraries,
        &places,
        &labels,
    );
    assert(w.objects[0] == objects@[0].deep_view());
    assert(w.keys[0] == keys@[0]@);
    let root: ElfFile = objects.remove(0);
    let permissions: Option<super::PermissionFinding> = if root.is_runnable() {
        host::permission_finding(keys[0].as_str(), facts.file)
    } else {
        None
    };
    Analysis {
        path: label,
        not_a_program: no_program(&root),
        arch: Some(host::arch_finding(&root, arch.as_str())),
        permissions,
        interpreter: find_loader(&root, facts),
        kind: TargetKind::Elf(Box::new(root)),
        libraries,
        unresolved,
        version_problems,
        env: host::env_findings(&facts.env),
        notes,
    }
}

// ---------------------------------------------------------------------------
// Laws
// ---------------------------------------------------------------------------

/// No file is parsed twice: what is to be loaded is neither an object yet nor
/// something that failed to parse.
pub proof fn no_file_is_parsed_twice(w: WalkView)
    requires
        w.sound(),
    ensures
        w.want() matches WantView::Load { key } ==> !w.keys.contains(key) && table::known(
            w.failed,
            key,
        ) is None,
        w.keys.no_duplicates(),
{
}

/// At the end of a walk nothing is left out: every library that any object
/// needs has a finding that names the object.
pub proof fn nothing_is_left_out(w: WalkView, o: int, e: int)
    requires
        w.sound(),
        w.want() is Done,
        0 <= o < w.objects.len(),
        0 <= e < w.objects[o].needed.len(),
    ensures
        w.reports(w.label_of(o), w.objects[o].needed[e]),
{
    assert(is_before(o, e, w.object, w.entry));
    assert(w.reports(w.label_of(o), w.objects[o].needed[e]));
}

/// Nothing is invented: every finding names an object that needs the library,
/// whatever it names so does need it, and what was found is one of the objects.
pub proof fn nothing_is_invented(w: WalkView, i: int)
    requires
        w.sound(),
        0 <= i < w.libraries.len(),
    ensures
        w.libraries[i].needed_by.len() > 0,
        forall|j: int|
            0 <= j < w.libraries[i].needed_by.len() ==> w.needs(
                #[trigger] w.libraries[i].needed_by[j],
                w.libraries[i].name,
            ),
        w.libraries[i].resolution is Found ==> w.keys.contains(w.places[i]),
{
}

/// The objects and the findings of the one state are in the other, in the same
/// order and under the same names, and no finding is worse.
pub open spec fn no_worse(before: WalkView, after: WalkView) -> bool {
    &&& before.keys.is_prefix_of(after.keys)
    &&& before.objects.is_prefix_of(after.objects)
    &&& before.libraries.len() <= after.libraries.len()
    &&& forall|i: int|
        0 <= i < before.libraries.len() ==> (#[trigger] after.libraries[i]).name
            == before.libraries[i].name && usefulness(after.libraries[i].resolution) >= usefulness(
            before.libraries[i].resolution,
        ) && before.libraries[i].needed_by.is_prefix_of(after.libraries[i].needed_by)
}

proof fn lemma_recorded_no_worse(
    w: WalkView,
    found: Option<(Seq<char>, Seq<char>)>,
    resolution: ResolutionView,
    place: Seq<char>,
)
    ensures
        no_worse(w, w.recorded(found, resolution, place)),
{
    let after = w.recorded(found, resolution, place);
    lemma_library_at(w.libraries, w.name());
    assert forall|i: int| 0 <= i < w.libraries.len() implies (#[trigger] after.libraries[i]).name
        == w.libraries[i].name && usefulness(after.libraries[i].resolution) >= usefulness(
        w.libraries[i].resolution,
    ) && w.libraries[i].needed_by.is_prefix_of(after.libraries[i].needed_by) by {
        assert(w.libraries[i].needed_by.is_prefix_of(w.libraries[i].needed_by));
    }
}

/// Whatever is found on the way, no object and no finding is lost, and no
/// finding is replaced by a worse one.
pub proof fn findings_never_get_worse(
    w: WalkView,
    probes: Seq<ProbeView>,
    content: Result<Seq<u8>, Seq<char>>,
)
    ensures
        no_worse(w, w.located(probes)),
        no_worse(w, w.loaded(content)),
{
    assert(no_worse(w, w)) by {
        assert forall|i: int| 0 <= i < w.libraries.len() implies w.libraries[i].needed_by.is_prefix_of(
            (#[trigger] w.libraries[i]).needed_by,
        ) by {}
    }
    if w.want() is Locate {
        let outcome = resolve::searched(w.candidates(), probes, Some(w.wanted()));
        let key = resolve::taken_key(w.candidates().len(), probes, Some(w.wanted()));
        match outcome {
            OutcomeView::Found(path) => {
                lemma_recorded_no_worse(w, Some((path, key)), ResolutionView::Found(path), key);
                match table::known(w.failed, key) {
                    Some(error) => {
                        lemma_recorded_no_worse(
                            w,
                            Some((path, key)),
                            ResolutionView::Unusable { path: key, reason: unparsed_text(error) },
                            Seq::empty(),
                        );
                    },
                    None => {},
                }
            },
            _ => {
                lemma_recorded_no_worse(
                    w,
                    None,
                    resolution_of(outcome, w.wanted().machine),
                    Seq::empty(),
                );
            },
        }
    }
    match w.loading {
        None => {},
        Some((path, key)) => match elf::parsed_file(key, content) {
            Ok(object) => {
                let next = WalkView {
                    keys: w.keys.push(key),
                    objects: w.objects.push(object),
                    loading: None,
                    ..w
                };
                lemma_recorded_no_worse(next, Some((path, key)), ResolutionView::Found(path), key);
            },
            Err(error) => {
                let next = WalkView {
                    failed: w.failed.push((key, error.text())),
                    loading: None,
                    ..w
                };
                lemma_recorded_no_worse(
                    next,
                    Some((path, key)),
                    ResolutionView::Unusable { path: key, reason: unparsed_text(error.text()) },
                    Seq::empty(),
                );
            },
        },
    }
}

impl WalkView {
    /// The finding for the name that is looked for gives the verdict, or the
    /// better outcome that it gave before.
    pub open spec fn is_told_unusable(self, after: WalkView, verdict: ResolutionView) -> bool {
        library_at(after.libraries, self.name()) matches Some(i) && (match library_at(
            self.libraries,
            self.name(),
        ) {
            None => after.libraries[i].resolution == verdict,
            Some(k) => i == k && after.libraries[i].resolution == if usefulness(
                self.libraries[k].resolution,
            ) > usefulness(verdict) {
                self.libraries[k].resolution
            } else {
                verdict
            },
        })
    }
}

/// An object that does not parse is unusable, and is not read again: where the
/// search gives it, the finding says so, unless a better outcome is known from
/// another object, which stays.
pub proof fn what_does_not_parse_is_never_found(w: WalkView, content: Result<Seq<u8>, Seq<char>>)
    requires
        w.sound(),
        w.loading matches Some((_, key)) && elf::parsed_file(key, content) is Err,
    ensures
        ({
            let after = w.loaded(content);
            let key = (w.loading->0).1;
            let error = elf::parsed_file(key, content)->Err_0.text();
            let verdict = ResolutionView::Unusable { path: key, reason: unparsed_text(error) };
            &&& table::known(after.failed, key) == Some(error)
            &&& w.is_told_unusable(after, verdict)
        }),
{
    let key = (w.loading->0).1;
    let path = (w.loading->0).0;
    let error = elf::parsed_file(key, content)->Err_0.text();
    let verdict = ResolutionView::Unusable { path: key, reason: unparsed_text(error) };
    let next = WalkView { failed: w.failed.push((key, error)), loading: None, ..w };
    assert(next.failed.drop_last() =~= w.failed);
    assert(next.name() == w.name());
    lemma_verdict(next, path, key, verdict);
}

/// An object that failed to parse stays unusable when it comes up again, for
/// this name or another one: it is not read a second time, and the finding says
/// what it said at first, unless a better outcome is known.
pub proof fn what_failed_to_parse_stays_unusable(w: WalkView, probes: Seq<ProbeView>)
    requires
        w.sound(),
        w.want() is Locate,
        resolve::searched(w.candidates(), probes, Some(w.wanted())) is Found,
        table::known(
            w.failed,
            resolve::taken_key(w.candidates().len(), probes, Some(w.wanted())),
        ) is Some,
    ensures
        ({
            let after = w.located(probes);
            let key = resolve::taken_key(w.candidates().len(), probes, Some(w.wanted()));
            let error = table::known(w.failed, key)->0;
            let verdict = ResolutionView::Unusable { path: key, reason: unparsed_text(error) };
            &&& after.loading is None
            &&& after.failed == w.failed
            &&& w.is_told_unusable(after, verdict)
        }),
{
    let path = resolve::searched(w.candidates(), probes, Some(w.wanted()))->Found_0;
    let key = resolve::taken_key(w.candidates().len(), probes, Some(w.wanted()));
    let error = table::known(w.failed, key)->0;
    if w.keys.contains(key) {
        lemma_known_stands(w.failed, key);
        let j = choose|j: int| 0 <= j < w.failed.len() && (#[trigger] w.failed[j]).0 == key;
        assert(!w.keys.contains(w.failed[j].0));
    }
    lemma_verdict(
        w,
        path,
        key,
        ResolutionView::Unusable { path: key, reason: unparsed_text(error) },
    );
}

/// What is known stands in the table.
proof fn lemma_known_stands(entries: Seq<(Seq<char>, Seq<char>)>, key: Seq<char>)
    requires
        table::known(entries, key) is Some,
    ensures
        exists|j: int| 0 <= j < entries.len() && (#[trigger] entries[j]).0 == key,
    decreases entries.len(),
{
    if forall|j: int| 0 <= j < entries.len() ==> (#[trigger] entries[j]).0 != key {
        let front = entries.drop_last();
        if table::known(front, key) is Some {
            lemma_known_stands(front, key);
            let j = choose|j: int| 0 <= j < front.len() && (#[trigger] front[j]).0 == key;
            assert(entries[j].0 == key);
        }
    }
}

/// What is recorded for a file that does not parse.
proof fn lemma_verdict(w: WalkView, path: Seq<char>, key: Seq<char>, verdict: ResolutionView)
    requires
        w.libraries_are_distinct(),
        verdict is Unusable,
    ensures
        ({
            let after = w.recorded(Some((path, key)), verdict, Seq::empty());
            w.is_told_unusable(after, verdict)
        }),
{
    let after = w.recorded(Some((path, key)), verdict, Seq::empty());
    lemma_library_at(w.libraries, w.name());
    lemma_library_at(after.libraries, w.name());
    match library_at(w.libraries, w.name()) {
        None => {
            assert(after.libraries.drop_last() =~= w.libraries);
        },
        Some(k) => {
            let i = library_at(after.libraries, w.name())->0;
            assert(after.libraries[k].name == w.name());
            assert(w.libraries[i].name == w.name());
        },
    }
}

/// What is loaded for a name has the class and the machine of the object that
/// needs it, where the file still begins as it did when it was probed.
pub proof fn loaded_objects_match_their_requirer(
    w: WalkView,
    probes: Seq<ProbeView>,
    i: int,
    d: Seq<u8>,
)
    requires
        w.want() is Locate,
        w.located(probes).loading matches Some((_, key)) && elf::parsed(key, d) is Ok,
        resolve::taken(w.candidates().len(), probes, Some(w.wanted())) == Some(i),
        d.len() >= resolve::IDENTITY_SIZE,
        probes[i]->head == d.take(resolve::IDENTITY_SIZE as int),
    ensures
        ({
            let after = w.located(probes).loaded(Ok(d));
            &&& after.objects.len() == w.objects.len() + 1
            &&& resolve::identity_of(after.objects.last()) == w.wanted()
        }),
{
    let n = w.candidates().len() as int;
    let wanted = Some(w.wanted());
    let key = (w.located(probes).loading->0).1;
    resolve::lemma_first_below(n, resolve::usable(probes, wanted));
    assert(resolve::verdict_at(probes, wanted, i) is Usable);
    resolve::identity_is_in_the_head(d);
    resolve::parsed_objects_are_identified(key, d);
}

/// A relocatable object or a core dump is never reported as clean.
pub proof fn no_program_is_never_clean(w: WalkView, facts: ElfFactsView)
    requires
        w.objects[0].etype is Relocatable || w.objects[0].etype is Core,
    ensures
        w.analysis(facts).code() == 1,
{
}

/// A program without any execute bit, or whose loader cannot start it, is
/// never reported as clean. A plain shared library needs no execute bit.
pub proof fn what_cannot_be_started_is_never_clean(w: WalkView, facts: ElfFactsView)
    ensures
        w.objects[0].runnable() && facts.file is Some && !host::runs(facts.file) ==> w.analysis(
            facts,
        ).code() == 1,
        loader_of(w.objects[0], facts) matches Some(i) && !i.works() ==> w.analysis(facts).code()
            == 1,
        !w.objects[0].runnable() ==> w.analysis(facts).permissions is None,
{
}

/// A program that needs a library which was not found is never reported as
/// clean.
pub proof fn what_lacks_a_library_is_never_clean(w: WalkView, facts: ElfFactsView, i: int)
    requires
        0 <= i < w.libraries.len(),
        !(w.libraries[i].resolution is Found),
    ensures
        w.analysis(facts).code() == 1,
{
    super::a_clean_exit_means_no_problem(w.analysis(facts));
    assert(w.analysis(facts).libraries[i] == w.libraries[i]);
}

} // verus!
