//! The walk: where each library is looked for, what is recorded of it, and what
//! comes out at the end.

use vstd::prelude::*;
use super::search;
use crate::analyze::host;
use crate::analyze::link;
use crate::analyze::walk;
use crate::analyze::walk::{ElfFactsView, WalkView, WantView};
use crate::analyze::{KindView, LibraryView, ResolutionView};
use crate::elf;
use crate::elf::{ElfType, ElfView};
use crate::path;
use crate::resolve;
use crate::resolve::{ElfIdentity, OutcomeView, ProbeView};
use crate::table;

verus! {

// ---------------------------------------------------------------------------
// Where a library is looked for
// ---------------------------------------------------------------------------

/// An entry of a directory list of an object, expanded for that object.
pub open spec fn entry_for(object: ElfView, arch: Seq<char>) -> spec_fn(Seq<char>) -> Seq<char> {
    |entry: Seq<char>|
        resolve::expanded(
            entry,
            resolve::origin_of(object.path),
            resolve::lib_of(object.class, arch),
            elf::host_text(arch),
        )
}

/// The directories of `DT_RPATH` that count: none where there is a
/// `DT_RUNPATH`.
pub open spec fn legacy_dirs(object: ElfView, arch: Seq<char>) -> Seq<Seq<char>> {
    if object.runpath.len() > 0 {
        Seq::empty()
    } else {
        object.rpath.map_values(entry_for(object, arch))
    }
}

/// A library that an object needs is looked for in the `DT_RPATH` directories
/// of the root, where another object needs it, in those of the object itself,
/// in those of `LD_LIBRARY_PATH`, in the `DT_RUNPATH` directories of the object,
/// through the cache and in the default directories. What is wanted is an
/// object of the class and the machine of the one that needs it.
pub proof fn a_library_is_looked_for_on_behalf_of_its_object(w: WalkView)
    requires
        w.loading is None,
        w.object < w.objects.len(),
        w.entry < w.objects[w.object as int].needed.len(),
        !w.objects[w.object as int].needed[w.entry as int].contains('/'),
    ensures
        ({
            let object = w.objects[w.object as int];
            let name = object.needed[w.entry as int];
            let place = search::place_for(name);
            let root = if w.object == 0 {
                Seq::empty()
            } else {
                legacy_dirs(w.objects[0], w.arch)
            };
            &&& w.want() matches WantView::Locate { candidates, wanted }
            &&& candidates == root.map_values(place) + legacy_dirs(object, w.arch).map_values(place)
                + w.resolver.env_dirs.map_values(place) + object.runpath.map_values(
                entry_for(object, w.arch),
            ).map_values(place) + w.resolver.cache.filter_map(search::path_for(name))
                + w.resolver.defaults.map_values(place)
            &&& wanted.class == object.class && wanted.machine == object.machine
        }),
{
    let object = w.objects[w.object as int];
    let name = object.needed[w.entry as int];
    let place = search::place_for(name);
    let root = if w.object == 0 {
        Seq::empty()
    } else {
        legacy_dirs(w.objects[0], w.arch)
    };
    let own = legacy_dirs(object, w.arch);
    let run = object.runpath.map_values(entry_for(object, w.arch));
    assert(walk::own_rpath(object, w.arch) =~= own);
    assert(walk::own_rpath(w.objects[0], w.arch) =~= legacy_dirs(w.objects[0], w.arch));
    assert(walk::own_runpath(object, w.arch) =~= run);
    assert(w.rpath_of(w.object as int) =~= root + own);
    search::places_come_in_the_order_of_the_loader(w.resolver, name, root + own, run);
    assert((root + own).map_values(place) =~= root.map_values(place) + own.map_values(place));
}

/// Every `DT_RPATH` entry of an object without a `DT_RUNPATH`, whether it is the
/// root or not, gives a candidate for the libraries that the object needs,
/// ahead of those that `LD_LIBRARY_PATH` gives.
pub proof fn an_object_is_searched_by_its_own_rpath(w: WalkView, k: int, e: int)
    requires
        w.loading is None,
        w.object < w.objects.len(),
        w.entry < w.objects[w.object as int].needed.len(),
        !w.objects[w.object as int].needed[w.entry as int].contains('/'),
        w.objects[w.object as int].runpath.len() == 0,
        0 <= k < w.objects[w.object as int].rpath.len(),
        0 <= e < w.resolver.env_dirs.len(),
    ensures
        ({
            let object = w.objects[w.object as int];
            let name = object.needed[w.entry as int];
            let dir = resolve::expanded_dirs(object, object.rpath, w.arch)[k];
            &&& w.want() matches WantView::Locate { candidates, wanted: _ }
            &&& exists|i: int, j: int|
                #![trigger candidates[i], candidates[j]]
                0 <= i < j < candidates.len() && candidates[i] == path::join(dir, name)
                    && candidates[j] == path::join(w.resolver.env_dirs[e], name)
        }),
{
    let object = w.objects[w.object as int];
    let name = object.needed[w.entry as int];
    let place = search::place_for(name);
    a_library_is_looked_for_on_behalf_of_its_object(w);
    let candidates = w.want()->candidates;
    let root = if w.object == 0 {
        Seq::empty()
    } else {
        legacy_dirs(w.objects[0], w.arch)
    };
    let own = legacy_dirs(object, w.arch);
    let i = root.len() + k;
    let j = root.len() + own.len() + e;
    let dir = resolve::expanded_dirs(object, object.rpath, w.arch)[k];
    assert(own.len() == object.rpath.len());
    assert(own[k] == dir);
    assert(own.map_values(place)[k] == path::join(dir, name));
    assert(candidates[i] == own.map_values(place)[k]);
    assert(w.resolver.env_dirs.map_values(place)[e] == path::join(w.resolver.env_dirs[e], name));
    assert(candidates[j] == w.resolver.env_dirs.map_values(place)[e]);
}

/// A `DT_RPATH` does not count where the object has a `DT_RUNPATH`, and the
/// `DT_RUNPATH` of one object does not count for another: for the root, nothing
/// but its own lists and those of the system count.
pub proof fn a_runpath_replaces_the_rpath(w: WalkView)
    requires
        w.objects[0].runpath.len() > 0,
    ensures
        w.rpath_of(0) == Seq::<Seq<char>>::empty(),
        forall|i: int|
            0 < i < w.objects.len() && (#[trigger] w.objects[i]).runpath.len() > 0 ==> w.rpath_of(i)
                == Seq::<Seq<char>>::empty(),
{
    assert(w.rpath_of(0) =~= Seq::<Seq<char>>::empty());
    assert forall|i: int|
        0 < i < w.objects.len() && (#[trigger] w.objects[i]).runpath.len() > 0 implies w.rpath_of(i)
        == Seq::<Seq<char>>::empty() by {
        assert(w.rpath_of(i) =~= Seq::<Seq<char>>::empty());
    }
}

// ---------------------------------------------------------------------------
// What is recorded
// ---------------------------------------------------------------------------

/// How good an outcome is: a library that was found is better than one of the
/// wrong architecture, which is better than one that cannot be used, which is
/// better than one that is missing.
pub proof fn outcomes_are_ranked(
    path: Seq<char>,
    found: Seq<char>,
    wanted: Seq<char>,
    reason: Seq<char>,
)
    ensures
        walk::usefulness(ResolutionView::Found(path)) > walk::usefulness(
            ResolutionView::WrongArchitecture { path, found, wanted },
        ),
        walk::usefulness(ResolutionView::WrongArchitecture { path, found, wanted })
            > walk::usefulness(ResolutionView::Unusable { path, reason }),
        walk::usefulness(ResolutionView::Unusable { path, reason }) > walk::usefulness(
            ResolutionView::Missing,
        ),
{
}

/// What a finding says of an outcome: the path, and where the architecture is
/// wrong the name of the one that was found and of the one that is wanted.
pub proof fn outcomes_are_told(path: Seq<char>, found: ElfIdentity, reason: Seq<char>, machine: u16)
    ensures
        walk::resolution_of(OutcomeView::Found(path), machine) == ResolutionView::Found(path),
        walk::resolution_of(OutcomeView::WrongArchitecture(path, found), machine)
            == (ResolutionView::WrongArchitecture {
            path,
            found: elf::machine_text(found.machine),
            wanted: elf::machine_text(machine),
        }),
        walk::resolution_of(OutcomeView::Unusable(path, reason), machine)
            == (ResolutionView::Unusable { path, reason }),
        walk::resolution_of(OutcomeView::Missing, machine) == ResolutionView::Missing,
{
}

/// The finding for a name.
pub open spec fn finding_for(w: WalkView, name: Seq<char>, i: int) -> bool {
    0 <= i < w.libraries.len() && w.libraries[i].name == name
}

/// The name that is looked for has a finding afterwards that names the object
/// which needs it: as the only one where there was no finding before, and
/// behind the others where there was one that did not name it.
pub open spec fn is_entered(w: WalkView, after: WalkView) -> bool {
    let name = w.name();
    let label = w.label_of(w.object as int);
    &&& forall|i: int|
        0 <= i < w.libraries.len() && w.libraries[i].name != name ==> #[trigger] after.libraries[i]
            == w.libraries[i]
    &&& (forall|i: int| !#[trigger] finding_for(w, name, i)) ==> after.libraries.len()
        == w.libraries.len() + 1 && after.libraries.last().name == name
        && after.libraries.last().needed_by == seq![label]
    &&& forall|i: int| #[trigger]
        finding_for(w, name, i) ==> after.libraries.len() == w.libraries.len()
            && after.libraries[i].name == name && after.libraries[i].needed_by == (
        if w.libraries[i].needed_by.contains(label) {
            w.libraries[i].needed_by
        } else {
            w.libraries[i].needed_by.push(label)
        })
}

/// The walk goes on at the entry behind, and looks for it in the same way.
pub open spec fn is_the_next(w: WalkView, after: WalkView) -> bool {
    &&& after.object == w.advanced().object && after.entry == w.advanced().entry
    &&& after.resolver == w.resolver && after.arch == w.arch && after.label == w.label
}

proof fn lemma_at(libraries: Seq<LibraryView>, name: Seq<char>)
    ensures
        walk::library_at(libraries, name) matches Some(i) ==> 0 <= i < libraries.len()
            && libraries[i].name == name,
        walk::library_at(libraries, name) is None ==> forall|i: int|
            0 <= i < libraries.len() ==> (#[trigger] libraries[i]).name != name,
    decreases libraries.len(),
{
    if libraries.len() > 0 {
        let front = libraries.drop_last();
        lemma_at(front, name);
        if walk::library_at(libraries, name) is None {
            assert forall|i: int| 0 <= i < libraries.len() implies (#[trigger] libraries[i]).name
                != name by {
                if i < front.len() {
                    assert(front[i] == libraries[i]);
                }
            }
        }
    }
}

proof fn lemma_entered(
    w: WalkView,
    found: Option<(Seq<char>, Seq<char>)>,
    resolution: ResolutionView,
    place: Seq<char>,
)
    requires
        w.libraries_are_distinct(),
    ensures
        is_entered(w, w.recorded(found, resolution, place)),
        forall|i: int| #[trigger]
            finding_for(w, w.name(), i) ==> w.recorded(found, resolution, place).libraries[i].resolution
                == (if walk::usefulness(resolution) > walk::usefulness(w.libraries[i].resolution)
                || (found is Some && resolution is Unusable && w.libraries[i].resolution is Unusable) {
                resolution
            } else {
                w.libraries[i].resolution
            }),
        (forall|i: int| !#[trigger] finding_for(w, w.name(), i)) ==> w.recorded(
            found,
            resolution,
            place,
        ).libraries.last().resolution == resolution,
{
    let name = w.name();
    lemma_at(w.libraries, name);
    match walk::library_at(w.libraries, name) {
        Some(k) => {
            assert(finding_for(w, name, k));
            assert forall|i: int| #[trigger] finding_for(w, name, i) implies i == k by {
                if i != k {
                    assert(w.libraries[i].name == w.libraries[k].name);
                }
            }
        },
        None => {
            assert forall|i: int| !#[trigger] finding_for(w, name, i) by {}
        },
    }
}

/// Where the search gives no object, what it gives is what the finding says,
/// unless it said something as good or better before. Nothing else changes but
/// the entry that is looked for next.
pub proof fn what_the_search_gives_is_recorded(w: WalkView, probes: Seq<ProbeView>)
    requires
        w.sound(),
        w.want() is Locate,
        !(resolve::searched(w.candidates(), probes, Some(w.wanted())) is Found),
    ensures
        ({
            let after = w.located(probes);
            let outcome = resolve::searched(w.candidates(), probes, Some(w.wanted()));
            let told = walk::resolution_of(outcome, w.objects[w.object as int].machine);
            &&& is_entered(w, after)
            &&& forall|i: int| #[trigger]
                finding_for(w, w.name(), i) ==> after.libraries[i].resolution == (
                if walk::usefulness(told) > walk::usefulness(w.libraries[i].resolution) {
                    told
                } else {
                    w.libraries[i].resolution
                })
            &&& (forall|i: int| !#[trigger] finding_for(w, w.name(), i))
                ==> after.libraries.last().resolution == told
            &&& after.objects == w.objects && after.keys == w.keys && after.failed == w.failed
            &&& after.notes == w.notes && after.loading is None
            &&& is_the_next(w, after)
        }),
{
    let outcome = resolve::searched(w.candidates(), probes, Some(w.wanted()));
    let told = walk::resolution_of(outcome, w.wanted().machine);
    lemma_entered(w, None, told, Seq::empty());
}

/// Where the search gives an object that is known already, the finding says
/// that it was found there, unless one was found before. A note is made where
/// the name has led to another file before.
pub proof fn what_is_known_is_found_again(w: WalkView, probes: Seq<ProbeView>, path: Seq<char>)
    requires
        w.sound(),
        w.want() is Locate,
        resolve::searched(w.candidates(), probes, Some(w.wanted())) == OutcomeView::Found(path),
        w.keys.contains(
            resolve::taken_key(w.candidates().len(), probes, Some(w.wanted())),
        ),
    ensures
        ({
            let after = w.located(probes);
            let key = resolve::taken_key(w.candidates().len(), probes, Some(w.wanted()));
            &&& is_entered(w, after)
            &&& forall|i: int| #[trigger]
                finding_for(w, w.name(), i) ==> {
                    &&& w.libraries[i].resolution matches ResolutionView::Found(before) ==> {
                        &&& after.libraries[i].resolution == w.libraries[i].resolution
                        &&& w.places[i] == key ==> after.notes == w.notes
                        &&& w.places[i] != key ==> after.notes == w.notes.push(
                            w.name() + " resolves to more than one file ("@ + before + " and "@
                                + path + ")"@,
                        )
                    }
                    &&& !(w.libraries[i].resolution is Found) ==> after.libraries[i].resolution
                        == ResolutionView::Found(path) && after.places[i] == key && after.notes
                        == w.notes
                }
            &&& (forall|i: int| !#[trigger] finding_for(w, w.name(), i))
                ==> after.libraries.last().resolution == ResolutionView::Found(path)
                && after.places.last() == key && after.notes == w.notes
            &&& after.objects == w.objects && after.keys == w.keys && after.failed == w.failed
            &&& after.loading is None && is_the_next(w, after)
        }),
{
    let key = resolve::taken_key(w.candidates().len(), probes, Some(w.wanted()));
    let name = w.name();
    lemma_entered(w, Some((path, key)), ResolutionView::Found(path), key);
    lemma_at(w.libraries, name);
    match walk::library_at(w.libraries, name) {
        Some(k) => {
            assert(finding_for(w, name, k));
            assert forall|i: int| #[trigger] finding_for(w, name, i) implies i == k by {
                if i != k {
                    assert(w.libraries[i].name == w.libraries[k].name);
                }
            }
        },
        None => {
            assert forall|i: int| !#[trigger] finding_for(w, name, i) by {}
        },
    }
}

/// Where the search gives a file that is not known, it is loaded, and nothing
/// is recorded before it is.
pub proof fn what_is_new_is_loaded(w: WalkView, probes: Seq<ProbeView>, path: Seq<char>)
    requires
        w.sound(),
        w.want() is Locate,
        resolve::searched(w.candidates(), probes, Some(w.wanted())) == OutcomeView::Found(path),
        ({
            let key = resolve::taken_key(w.candidates().len(), probes, Some(w.wanted()));
            !w.keys.contains(key) && table::known(w.failed, key) is None
        }),
    ensures
        ({
            let after = w.located(probes);
            let key = resolve::taken_key(w.candidates().len(), probes, Some(w.wanted()));
            &&& after == (WalkView { loading: Some((path, key)), ..w })
            &&& after.want() == (WantView::Load { key })
        }),
{
}

/// What was loaded and parses is an object of the walk from then on, under the
/// canonical path, behind those that there are; and its library was found.
pub proof fn what_parses_joins_the_walk(
    w: WalkView,
    path: Seq<char>,
    key: Seq<char>,
    d: Seq<u8>,
    object: ElfView,
)
    requires
        w.sound(),
        w.loading == Some((path, key)),
        elf::parsed(key, d) == Ok::<ElfView, elf::ElfErrorView>(object),
    ensures
        ({
            let after = w.loaded(Ok(d));
            &&& after.keys == w.keys.push(key) && after.objects == w.objects.push(object)
            &&& after.failed == w.failed && after.loading is None
            &&& is_entered(w, after)
            &&& (forall|i: int| !#[trigger] finding_for(w, w.name(), i))
                ==> after.libraries.last().resolution == ResolutionView::Found(path)
                && after.places.last() == key
            &&& forall|i: int| #[trigger]
                finding_for(w, w.name(), i) && !(w.libraries[i].resolution is Found)
                    ==> after.libraries[i].resolution == ResolutionView::Found(path)
                    && after.places[i] == key && after.notes == w.notes
            &&& forall|i: int| #[trigger]
                finding_for(w, w.name(), i) ==> (w.libraries[i].resolution matches ResolutionView::Found(
                    before,
                ) ==> after.libraries[i].resolution == w.libraries[i].resolution && after.notes
                    == w.notes.push(
                    w.name() + " resolves to more than one file ("@ + before + " and "@ + path
                        + ")"@,
                ))
            &&& (forall|i: int| !#[trigger] finding_for(w, w.name(), i)) ==> after.notes == w.notes
            &&& is_the_next(WalkView { objects: w.objects.push(object), ..w }, after)
        }),
{
    let next = WalkView {
        keys: w.keys.push(key),
        objects: w.objects.push(object),
        loading: None,
        ..w
    };
    let o = w.object as int;
    assert(next.objects[o] == w.objects[o]);
    assert(next.keys[o] == w.keys[o]);
    assert(next.name() == w.name());
    assert(next.label_of(o) == w.label_of(o));
    assert(next.libraries_are_distinct()) by {
        assert forall|i: int|
            0 <= i < next.libraries.len() && (
            #[trigger] next.libraries[i]).resolution is Found implies next.keys.contains(
            next.places[i],
        ) by {
            if w.libraries[i].resolution is Found {
                let k = choose|k: int| 0 <= k < w.keys.len() && w.keys[k] == w.places[i];
                assert(next.keys[k] == w.places[i]);
            }
        }
    }
    lemma_entered(next, Some((path, key)), ResolutionView::Found(path), key);
    assert forall|i: int| #[trigger] finding_for(w, w.name(), i) implies finding_for(
        next,
        next.name(),
        i,
    ) by {}
    assert forall|i: int| #[trigger] finding_for(next, next.name(), i) implies finding_for(
        w,
        w.name(),
        i,
    ) by {}
    lemma_at(w.libraries, w.name());
    match walk::library_at(w.libraries, w.name()) {
        Some(k) => {
            assert(finding_for(w, w.name(), k));
            assert forall|i: int| #[trigger] finding_for(w, w.name(), i) implies i == k by {
                if i != k {
                    assert(w.libraries[i].name == w.libraries[k].name);
                }
            }
            if w.libraries[k].resolution is Found {
                assert(w.keys.contains(w.places[k]));
            }
        },
        None => {},
    }
}

/// What was loaded and does not parse is noted, with the path and the error,
/// and remembered by its canonical path. It is no object of the walk.
pub proof fn what_does_not_parse_is_noted(
    w: WalkView,
    path: Seq<char>,
    key: Seq<char>,
    content: Result<Seq<u8>, Seq<char>>,
)
    requires
        w.sound(),
        w.loading == Some((path, key)),
        elf::parsed_file(key, content) is Err,
    ensures
        ({
            let after = w.loaded(content);
            let error = elf::parsed_file(key, content)->Err_0.text();
            &&& after.keys == w.keys && after.objects == w.objects && after.loading is None
            &&& after.failed == w.failed.push((key, error))
            &&& after.notes.last() == "could not read "@ + path + ": "@ + error
            &&& after.libraries.len() > 0 && is_entered(w, after) && is_the_next(w, after)
            &&& forall|i: int| #[trigger]
                finding_for(w, w.name(), i) ==> {
                    let told = ResolutionView::Unusable {
                        path: key,
                        reason: "could not be parsed ("@ + error + ")"@,
                    };
                    &&& w.libraries[i].resolution is Missing || w.libraries[i].resolution is Unusable
                        ==> after.libraries[i].resolution == told
                    &&& w.libraries[i].resolution is Found
                        || w.libraries[i].resolution is WrongArchitecture
                        ==> after.libraries[i].resolution == w.libraries[i].resolution
                    &&& w.libraries[i].resolution matches ResolutionView::Found(before)
                        ==> after.notes.drop_last() == w.notes.push(
                        w.name() + " resolves to more than one file ("@ + before + " and "@ + path
                            + ")"@,
                    )
                    &&& !(w.libraries[i].resolution is Found) ==> after.notes.drop_last() == w.notes
                }
            &&& (forall|i: int| !#[trigger] finding_for(w, w.name(), i))
                ==> after.notes.drop_last() == w.notes
            &&& (forall|i: int| !#[trigger] finding_for(w, w.name(), i)) ==> after.libraries.last()
                == (LibraryView {
                name: w.name(),
                needed_by: seq![w.label_of(w.object as int)],
                resolution: ResolutionView::Unusable {
                    path: key,
                    reason: "could not be parsed ("@ + error + ")"@,
                },
            })
        }),
{
    let error = elf::parsed_file(key, content)->Err_0.text();
    let next = WalkView { failed: w.failed.push((key, error)), loading: None, ..w };
    lemma_entered(
        next,
        Some((path, key)),
        ResolutionView::Unusable { path: key, reason: walk::unparsed_text(error) },
        Seq::empty(),
    );
    lemma_at(w.libraries, w.name());
    assert forall|i: int| #[trigger] finding_for(w, w.name(), i) implies finding_for(
        next,
        next.name(),
        i,
    ) by {}
    assert forall|i: int| #[trigger] finding_for(next, next.name(), i) implies finding_for(
        w,
        w.name(),
        i,
    ) by {}
    let after = next.recorded(
        Some((path, key)),
        ResolutionView::Unusable { path: key, reason: walk::unparsed_text(error) },
        Seq::empty(),
    );
    assert(after.notes.push(walk::unread_text(path, error)).drop_last() =~= after.notes);
    match walk::library_at(w.libraries, w.name()) {
        Some(k) => {
            assert(finding_for(w, w.name(), k));
            assert forall|i: int| #[trigger] finding_for(w, w.name(), i) implies i == k by {
                if i != k {
                    assert(w.libraries[i].name == w.libraries[k].name);
                }
            }
            if w.libraries[k].resolution is Found {
                assert(w.keys.contains(w.places[k]));
            }
        },
        None => {
            assert forall|i: int| !#[trigger] finding_for(w, w.name(), i) by {}
        },
    }
}

/// What did not parse before is told again, with the same reason, and is not
/// loaded again.
pub proof fn what_did_not_parse_is_told_again(
    w: WalkView,
    probes: Seq<ProbeView>,
    path: Seq<char>,
    error: Seq<char>,
)
    requires
        w.sound(),
        w.want() is Locate,
        resolve::searched(w.candidates(), probes, Some(w.wanted())) == OutcomeView::Found(path),
        table::known(
            w.failed,
            resolve::taken_key(w.candidates().len(), probes, Some(w.wanted())),
        ) == Some(error),
        !w.keys.contains(resolve::taken_key(w.candidates().len(), probes, Some(w.wanted()))),
    ensures
        ({
            let after = w.located(probes);
            let key = resolve::taken_key(w.candidates().len(), probes, Some(w.wanted()));
            let told = ResolutionView::Unusable {
                path: key,
                reason: "could not be parsed ("@ + error + ")"@,
            };
            &&& is_entered(w, after) && is_the_next(w, after) && after.loading is None
            &&& after.objects == w.objects && after.keys == w.keys && after.failed == w.failed
            &&& (forall|i: int| !#[trigger] finding_for(w, w.name(), i))
                ==> after.libraries.last().resolution == told
            &&& forall|i: int| #[trigger]
                finding_for(w, w.name(), i) ==> after.libraries[i].resolution == (
                if w.libraries[i].resolution is Missing || w.libraries[i].resolution is Unusable {
                    told
                } else {
                    w.libraries[i].resolution
                })
        }),
{
    let key = resolve::taken_key(w.candidates().len(), probes, Some(w.wanted()));
    let told = ResolutionView::Unusable { path: key, reason: walk::unparsed_text(error) };
    lemma_entered(w, Some((path, key)), told, Seq::empty());
}

/// The entry that is looked for next is the first one behind: the next one of
/// the same object, or the first one of the next object that needs any. So the
/// objects are taken in the order in which they were found.
pub proof fn entries_are_taken_in_order(w: WalkView)
    requires
        w.object < w.objects.len(),
    ensures
        ({
            let after = w.advanced();
            &&& w.entry + 1 < w.objects[w.object as int].needed.len() ==> after.object == w.object
                && after.entry == w.entry + 1
            &&& w.entry + 1 >= w.objects[w.object as int].needed.len() ==> {
                &&& after.object > w.object && after.object <= w.objects.len() && after.entry == 0
                &&& forall|o: int|
                    w.object < o < after.object ==> (#[trigger] w.objects[o]).needed.len() == 0
                &&& after.object < w.objects.len() ==> w.objects[after.object as int].needed.len() > 0
            }
        }),
{
    lemma_next(w.objects, w.object + 1);
}

proof fn lemma_next(objects: Seq<ElfView>, o: nat)
    requires
        o <= objects.len(),
    ensures
        ({
            let next = walk::cursor_from(objects, o, 0);
            &&& o <= next.0 <= objects.len() && next.1 == 0
            &&& forall|k: int| o <= k < next.0 ==> (#[trigger] objects[k]).needed.len() == 0
            &&& next.0 < objects.len() ==> objects[next.0 as int].needed.len() > 0
        }),
    decreases objects.len() - o,
{
    if o < objects.len() && objects[o as int].needed.len() == 0 {
        lemma_next(objects, o + 1);
    }
}

/// A walk begins with the root alone, at the first library that it needs; where
/// it needs none, there is nothing to do.
pub proof fn a_walk_begins_at_its_root(
    label: Seq<char>,
    key: Seq<char>,
    root: ElfView,
    resolver: resolve::ResolverView,
    arch: Seq<char>,
)
    ensures
        ({
            let w = walk::start_of(label, key, root, resolver, arch);
            &&& w.objects == seq![root] && w.keys == seq![key] && w.libraries.len() == 0
            &&& w.label_of(0) == label
            &&& root.needed.len() == 0 ==> w.want() == WantView::Done
            &&& root.needed.len() > 0 ==> w.object == 0 && w.entry == 0 && w.want() is Locate
            &&& w.resolver == resolver && w.arch == arch
            &&& root.etype == ElfType::Executable && root.interpreter is None && !root.has_dynamic
                ==> w.notes == seq![
                "statically linked: no dynamic loader and no shared library dependencies"@,
            ]
            &&& root.etype != ElfType::Executable || root.interpreter is Some || root.has_dynamic
                ==> w.notes.len() == 0
        }),
{
    lemma_next(seq![root], 0);
    lemma_next(seq![root], 1);
}

// ---------------------------------------------------------------------------
// What comes out
// ---------------------------------------------------------------------------

/// What a walk and the machine say of a program is put together: the path as it
/// was typed, the object, the findings of the walk, what is left open by its
/// objects, and what the machine says of the file, of the loader and of the
/// environment.
pub proof fn the_parts_of_an_analysis(w: WalkView, facts: ElfFactsView)
    requires
        w.objects.len() > 0,
        w.keys.len() == w.objects.len(),
    ensures
        ({
            let a = w.analysis(facts);
            let root = w.objects[0];
            &&& a.path == w.label && a.kind == KindView::Elf(root)
            &&& a.libraries == w.libraries && a.notes == w.notes
            &&& root.etype == ElfType::Relocatable ==> a.not_a_program == Some(
                "this is a relocatable object (.o), not something that can be run"@,
            )
            &&& root.etype == ElfType::Core ==> a.not_a_program == Some(
                "this is a core dump, not a program"@,
            )
            &&& root.etype != ElfType::Relocatable && root.etype != ElfType::Core
                ==> a.not_a_program is None
            &&& a.arch == Some(host::arch_of(root, w.arch))
            &&& a.env == host::env_notes(facts.env)
            &&& a.unresolved == link::unresolved_of(w.objects, seq![w.label] + w.keys.skip(1))
            &&& a.version_problems == (link::Graph {
                keys: w.keys,
                objects: w.objects,
                libraries: w.libraries,
                places: w.places,
            }).version_problems(seq![w.label] + w.keys.skip(1))
        }),
{
    assert(w.labels() =~= seq![w.label] + w.keys.skip(1));
}

/// The execute bits of the file are looked at where it is something to be
/// started: any executable, and a shared object with an interpreter or that is
/// a static program. They are told with the canonical path.
pub proof fn execute_bits_matter_for_programs(w: WalkView, facts: ElfFactsView)
    ensures
        ({
            let a = w.analysis(facts);
            let root = w.objects[0];
            let started = root.etype == ElfType::Executable || (root.etype == ElfType::Shared && (
            root.interpreter is Some || root.flags_1 & 0x0800_0000 != 0 || (root.soname is None
                && root.entry != 0)));
            &&& !started ==> a.permissions is None
            &&& started && facts.file is None ==> a.permissions is None
            &&& started && facts.file is Some ==> (a.permissions matches Some(p) && p.path
                == w.keys[0] && p.mode == (facts.file->0).mode & 0o7777 && p.executable == ((
            facts.file->0).mode & 0o111 != 0))
        }),
{
}

/// The loader that a program names is looked at as the machine shows it: whether
/// it is there, whether it may be executed, and where it may, whether it can
/// load the program.
pub proof fn the_loader_is_looked_at(w: WalkView, facts: ElfFactsView)
    ensures
        ({
            let a = w.analysis(facts);
            let root = w.objects[0];
            let runs = facts.interpreter matches Some(f) && f.mode & 0o111 != 0;
            &&& root.interpreter is None ==> a.interpreter is None
            &&& root.interpreter matches Some(path) ==> (a.interpreter matches Some(i) && i.path
                == path && i.exists == (facts.interpreter is Some) && i.executable == runs && (!runs
                ==> i.problem is None) && (runs ==> i.problem == host::loader_problem(
                root,
                path,
                facts.loader,
            )))
        }),
{
}

} // verus!
