//! The next steps that are suggested, by what was found.

use vstd::prelude::*;
use crate::analyze;
use crate::analyze::{AnalysisView, LibraryView, ProblemView, ResolutionView};
use crate::distro::Family;
use crate::report;
use crate::text;

verus! {

// ---------------------------------------------------------------------------
// Libraries
// ---------------------------------------------------------------------------

/// The command that finds the package which provides a library.
pub open spec fn package_search(family: Family, library: Seq<char>) -> Seq<char> {
    match family {
        Family::Arch => "pacman -F "@ + library + "   (or: pkgfile "@ + library + ")"@,
        Family::Debian => "apt-file search "@ + library + "   (or: dpkg -S)"@,
        Family::Fedora => "dnf provides '*/"@ + library + "'"@,
        Family::Suse => "zypper search --provides "@ + library,
        Family::Alpine => "apk search -v 'so:"@ + library + "'"@,
        Family::Gentoo => "pkgfile "@ + library,
        Family::Unknown => "use your distribution's \"which package provides "@ + library
            + "\" search"@,
    }
}

/// The step for a library that cannot be used: one that is missing is to be
/// installed, one of the wrong architecture is to be installed for the one that
/// is wanted, and one that is no ELF object is to be replaced.
pub open spec fn step_for(library: LibraryView, family: Family) -> Option<Seq<char>> {
    match library.resolution {
        ResolutionView::Found(_) => None,
        ResolutionView::Missing => Some(
            "Find and install the package that provides "@ + library.name + " — "@
                + package_search(family, library.name),
        ),
        ResolutionView::WrongArchitecture { path, found, wanted } => Some(
            library.name + " ("@ + path + ") is built for "@ + found + ", not "@ + wanted
                + "; install the "@ + wanted + " version of the package that provides it"@,
        ),
        ResolutionView::Unusable { path, reason } => Some(
            library.name + " ("@ + path + ") is "@ + reason
                + "; replace it or remove it from the search path"@,
        ),
    }
}

proof fn lemma_step_for(library: LibraryView, family: Family)
    ensures
        library.resolution is Missing ==> step_for(library, family) == Some(
            report::install_step(library.name, family),
        ),
        !(library.resolution is Missing) ==> step_for(library, family) == report::repair_step(
            library,
        ),
{
}

/// Every library that cannot be used is answered with its step.
pub proof fn every_library_is_answered(a: AnalysisView, family: Family, i: int)
    requires
        0 <= i < a.libraries.len(),
    ensures
        step_for(a.libraries[i], family) matches Some(step) ==> report::steps_of(a, family).contains(
            step,
        ),
{
    lemma_step_for(a.libraries[i], family);
    report::every_unusable_library_gets_a_step(a, family, i);
}

/// The architecture behind `install the` is the one that is wanted: for a
/// library of the wrong architecture, the step is the text that says so.
pub proof fn the_wanted_architecture_is_to_be_installed(
    a: AnalysisView,
    family: Family,
    i: int,
    path: Seq<char>,
    found: Seq<char>,
    wanted: Seq<char>,
)
    requires
        0 <= i < a.libraries.len(),
        a.libraries[i].resolution == (ResolutionView::WrongArchitecture { path, found, wanted }),
    ensures
        report::steps_of(a, family).contains(
            a.libraries[i].name + " ("@ + path + ") is built for "@ + found + ", not "@ + wanted
                + "; install the "@ + wanted + " version of the package that provides it"@,
        ),
{
    every_library_is_answered(a, family, i);
}

/// A library that is in order gets no step: each step for a library that is
/// suggested is one for a library that cannot be used.
pub open spec fn is_library_step(a: AnalysisView, family: Family, step: Seq<char>) -> bool {
    exists|i: int|
        0 <= i < a.libraries.len() && step_for(#[trigger] a.libraries[i], family) == Some(step)
}

// ---------------------------------------------------------------------------
// Everything else
// ---------------------------------------------------------------------------

/// The steps for the file itself.
pub open spec fn steps_for_the_file(a: AnalysisView) -> Seq<Seq<char>> {
    let first = if a.not_a_program is Some {
        seq![
            "Point `why` at the program that runs this file (the executable or the loader), not at the object itself"@,
        ]
    } else {
        Seq::empty()
    };
    match a.permissions {
        Some(p) => if p.executable {
            first
        } else {
            first.push(
                "Make the file executable: `chmod +x "@ + p.path + "` (currently mode "@
                    + text::octal4(p.mode as nat) + ")"@,
            )
        },
        None => first,
    }
}

/// The steps for the interpreter: one where it is not there, one where it may
/// not be executed, and one where it cannot load the program.
pub open spec fn steps_for_the_interpreter(a: AnalysisView) -> Seq<Seq<char>> {
    match a.interpreter {
        None => Seq::empty(),
        Some(i) => {
            let first = if i.exists && i.executable {
                Seq::empty()
            } else if i.exists {
                seq!["Make the interpreter executable: `chmod +x "@ + i.path + "`"@]
            } else if !(a.kind is Script) {
                seq![
                    "Install the dynamic loader at "@ + i.path
                        + " (usually shipped with the C library; 32-bit programs need the multilib variant)"@,
                ]
            } else if i.path.contains('/') {
                seq![
                    "The interpreter "@ + i.path
                        + " named on line 1 of the script does not exist; install whatever provides it"@,
                ]
            } else {
                seq![
                    "The interpreter `"@ + i.path
                        + "` was not found on PATH; install it or fix PATH"@,
                ]
            };
            match i.problem {
                None => first,
                Some(ProblemView::WrongArchitecture { found, wanted }) => first.push(
                    "The ELF interpreter "@ + i.path + " is built for "@ + found
                        + " but the program is "@ + wanted
                        + "; the loader path is wrong (reinstall the program or the C library)"@,
                ),
                Some(ProblemView::NotLoadable(reason)) => first.push(
                    "The ELF interpreter "@ + i.path + " is not a valid loader ("@ + reason
                        + "); the loader path is wrong (reinstall the program or the C library)"@,
                ),
            }
        },
    }
}

/// The steps for the architecture of a program.
pub open spec fn steps_for_the_architecture(a: AnalysisView) -> Seq<Seq<char>> {
    match a.arch {
        Some(f) => if a.not_a_program is Some || (f.compatible && f.exact) {
            Seq::empty()
        } else if f.compatible {
            seq![
                "This is a cross-architecture (for example 32-bit) program: it needs the compatibility loader and multilib libraries installed"@,
            ]
        } else {
            seq![
                "This program targets "@ + f.name + " but the system is "@ + (if f.host_name is Some {
                    f.host_name->0
                } else {
                    "unknown"@
                }) + "; install the matching runtime"@,
            ]
        },
        None => Seq::empty(),
    }
}

/// The steps for symbols, versions and the environment.
pub open spec fn steps_for_the_rest(a: AnalysisView) -> Seq<Seq<char>> {
    let symbols = if a.unresolved.len() > 0 {
        seq![
            "Unresolved symbols usually mean the libraries on disk are older, newer, or partially upgraded — update or reinstall the packages that own them"@,
        ]
    } else {
        Seq::empty()
    };
    let versions = if a.version_problems.len() > 0 {
        seq![
            "A required symbol version is missing, which is the signature of a partial system upgrade; finish the upgrade and try again"@,
        ]
    } else {
        Seq::empty()
    };
    let environment = if exists|i: int|
        0 <= i < a.env.len() && (#[trigger] a.env[i]).variable == "LD_LIBRARY_PATH"@ {
        seq!["Retry with `env -u LD_LIBRARY_PATH` to rule out a stale library override"@]
    } else {
        Seq::empty()
    };
    symbols + versions + environment
}

/// The steps that come for the libraries, behind those for the file: each one
/// for a library that cannot be used, and none twice.
pub open spec fn are_library_steps(
    a: AnalysisView,
    family: Family,
    steps: Seq<Seq<char>>,
) -> bool {
    &&& steps.no_duplicates()
    &&& forall|k: int|
        0 <= k < steps.len() ==> is_library_step(a, family, #[trigger] steps[k])
            && !steps_for_the_file(a).contains(steps[k])
}

/// The steps behind others, with one more unless it is there.
spec fn grown(base: Seq<Seq<char>>, added: Seq<Seq<char>>, step: Seq<char>) -> Seq<Seq<char>> {
    if (base + added).contains(step) {
        added
    } else {
        added.push(step)
    }
}

proof fn lemma_grown(base: Seq<Seq<char>>, added: Seq<Seq<char>>, step: Seq<char>)
    requires
        added.no_duplicates(),
        forall|k: int| 0 <= k < added.len() ==> !base.contains(#[trigger] added[k]),
    ensures
        ({
            let next = grown(base, added, step);
            &&& report::with_step(base + added, step) == base + next
            &&& next.no_duplicates()
            &&& forall|k: int| 0 <= k < next.len() ==> !base.contains(#[trigger] next[k])
            &&& forall|k: int| 0 <= k < next.len() ==> next[k] == step || added.contains(
                #[trigger] next[k],
            )
        }),
{
    let all = base + added;
    if all.contains(step) {
        assert forall|k: int| 0 <= k < added.len() implies added.contains(#[trigger] added[k]) by {}
    } else {
        let next = added.push(step);
        assert(all.push(step) =~= base + next);
        assert(!base.contains(step)) by {
            if base.contains(step) {
                let k = choose|k: int| 0 <= k < base.len() && base[k] == step;
                assert(all[k] == step);
            }
        }
        assert forall|k: int| 0 <= k < added.len() implies added[k] != step by {
            if added[k] == step {
                assert(all[base.len() + k] == step);
            }
        }
        assert forall|k: int| 0 <= k < next.len() implies !base.contains(#[trigger] next[k]) by {
            if k < added.len() {
                assert(next[k] == added[k]);
            }
        }
        assert forall|k: int| 0 <= k < next.len() implies next[k] == step || added.contains(
            #[trigger] next[k],
        ) by {
            if k < added.len() {
                assert(next[k] == added[k]);
                assert(added.contains(added[k]));
            }
        }
    }
}

proof fn lemma_installs(
    a: AnalysisView,
    family: Family,
    missing: Seq<LibraryView>,
) -> (added: Seq<Seq<char>>)
    requires
        forall|k: int|
            0 <= k < missing.len() ==> (#[trigger] missing[k]).resolution is Missing
                && a.libraries.contains(missing[k]),
    ensures
        report::with_installs(steps_for_the_file(a), missing, family) == steps_for_the_file(a)
            + added,
        are_library_steps(a, family, added),
    decreases missing.len(),
{
    let base = steps_for_the_file(a);
    if missing.len() == 0 {
        let none = Seq::<Seq<char>>::empty();
        assert(base + none =~= base);
        none
    } else {
        let front = missing.drop_last();
        assert forall|k: int| 0 <= k < front.len() implies (#[trigger] front[k]).resolution is Missing
            && a.libraries.contains(front[k]) by {
            assert(missing[k] == front[k]);
        }
        let before = lemma_installs(a, family, front);
        let library = missing.last();
        assert(missing[missing.len() - 1] == library);
        let step = report::install_step(library.name, family);
        lemma_step_for(library, family);
        lemma_grown(base, before, step);
        let i = choose|i: int| 0 <= i < a.libraries.len() && a.libraries[i] == library;
        assert(step_for(a.libraries[i], family) == Some(step));
        assert(is_library_step(a, family, step));
        let next = grown(base, before, step);
        assert forall|k: int| 0 <= k < next.len() implies is_library_step(
            a,
            family,
            #[trigger] next[k],
        ) by {
            if k < before.len() {
                assert(next[k] == before[k]);
            }
        }
        next
    }
}

proof fn lemma_repairs(
    a: AnalysisView,
    family: Family,
    installs: Seq<Seq<char>>,
    unusable: Seq<LibraryView>,
) -> (added: Seq<Seq<char>>)
    requires
        are_library_steps(a, family, installs),
        forall|k: int| 0 <= k < unusable.len() ==> a.libraries.contains(#[trigger] unusable[k]),
    ensures
        report::with_repairs(steps_for_the_file(a) + installs, unusable) == steps_for_the_file(a)
            + added,
        are_library_steps(a, family, added),
    decreases unusable.len(),
{
    let base = steps_for_the_file(a);
    if unusable.len() == 0 {
        installs
    } else {
        let front = unusable.drop_last();
        assert forall|k: int| 0 <= k < front.len() implies a.libraries.contains(
            #[trigger] front[k],
        ) by {
            assert(unusable[k] == front[k]);
        }
        let before = lemma_repairs(a, family, installs, front);
        let library = unusable.last();
        assert(unusable[unusable.len() - 1] == library);
        lemma_step_for(library, family);
        match report::repair_step(library) {
            None => before,
            Some(step) => {
                lemma_grown(base, before, step);
                let i = choose|i: int| 0 <= i < a.libraries.len() && a.libraries[i] == library;
                assert(step_for(a.libraries[i], family) == Some(step));
                assert(is_library_step(a, family, step));
                let next = grown(base, before, step);
                assert forall|k: int| 0 <= k < next.len() implies is_library_step(
                    a,
                    family,
                    #[trigger] next[k],
                ) by {
                    if k < before.len() {
                        assert(next[k] == before[k]);
                    }
                }
                next
            },
        }
    }
}

proof fn lemma_among(libraries: Seq<LibraryView>)
    ensures
        forall|k: int|
            0 <= k < analyze::missing_among(libraries).len() ==> (
            #[trigger] analyze::missing_among(libraries)[k]).resolution is Missing
                && libraries.contains(analyze::missing_among(libraries)[k]),
        forall|k: int|
            0 <= k < analyze::unusable_among(libraries).len() ==> libraries.contains(
                #[trigger] analyze::unusable_among(libraries)[k],
            ),
    decreases libraries.len(),
{
    if libraries.len() > 0 {
        let front = libraries.drop_last();
        lemma_among(front);
        let m = analyze::missing_among(front);
        let u = analyze::unusable_among(front);
        assert(libraries[libraries.len() - 1] == libraries.last());
        assert forall|x: LibraryView| front.contains(x) implies #[trigger] libraries.contains(x) by {
            let k = choose|k: int| 0 <= k < front.len() && front[k] == x;
            assert(libraries[k] == x);
        }
        assert forall|k: int| 0 <= k < analyze::missing_among(libraries).len() implies (
        #[trigger] analyze::missing_among(libraries)[k]).resolution is Missing
            && libraries.contains(analyze::missing_among(libraries)[k]) by {
            if k < m.len() {
                assert(analyze::missing_among(libraries)[k] == m[k]);
                assert(front.contains(m[k]));
            }
        }
        assert forall|k: int| 0 <= k < analyze::unusable_among(libraries).len() implies libraries.contains(
            #[trigger] analyze::unusable_among(libraries)[k],
        ) by {
            if k < u.len() {
                assert(analyze::unusable_among(libraries)[k] == u[k]);
                assert(front.contains(u[k]));
            }
        }
    }
}

/// The steps come in one order: those for the file, those for libraries that
/// cannot be used, those for the interpreter, for the architecture, for symbols
/// and versions, and for the environment. Where there would be none for
/// something that was understood, it is said that no problem was found.
pub proof fn steps_come_in_one_order(a: AnalysisView, family: Family)
    ensures
        exists|libraries: Seq<Seq<char>>| #[trigger]
            are_library_steps(a, family, libraries) && ({
                let all = steps_for_the_file(a) + libraries + steps_for_the_interpreter(a)
                    + steps_for_the_architecture(a) + steps_for_the_rest(a);
                report::steps_of(a, family) == if all.len() == 0 && !(a.kind is NotElf) {
                    seq![
                        "No problem was found in the ELF metadata; the failure is likely at runtime (arguments, configuration, permissions) or in an area `why` does not inspect yet — see TODO"@,
                    ]
                } else {
                    all
                }
            }),
{
    lemma_among(a.libraries);
    let missing = analyze::missing_among(a.libraries);
    let unusable = analyze::unusable_among(a.libraries);
    assert(report::file_steps(a) =~= steps_for_the_file(a));
    let installs = lemma_installs(a, family, missing);
    let libraries = lemma_repairs(a, family, installs, unusable);
    assert(report::interpreter_steps(a) =~= steps_for_the_interpreter(a));
    assert(report::arch_steps(a) =~= steps_for_the_architecture(a));
    assert(report::other_steps(a) =~= steps_for_the_rest(a));
    assert(are_library_steps(a, family, libraries));
}

/// The steps for missing libraries come before those for libraries that are
/// there and cannot be used.
pub proof fn what_is_missing_comes_first(a: AnalysisView, family: Family, i: int)
    requires
        0 <= i < a.libraries.len(),
        a.libraries[i].resolution is Missing,
    ensures
        exists|k: int|
            0 <= k < steps_for_the_file(a).len() + analyze::missing_among(a.libraries).len() && k
                < report::steps_of(a, family).len() && #[trigger] report::steps_of(a, family)[k]
                == step_for(a.libraries[i], family)->0,
{
    let missing = analyze::missing_among(a.libraries);
    let unusable = analyze::unusable_among(a.libraries);
    let first = report::with_installs(report::file_steps(a), missing, family);
    let second = report::with_repairs(first, unusable);
    let all = report::found_steps(a, family);
    let step = report::install_step(a.libraries[i].name, family);
    lemma_step_for(a.libraries[i], family);
    assert(report::file_steps(a) =~= steps_for_the_file(a));
    report::lemma_picked(a.libraries, i);
    report::lemma_with_installs(report::file_steps(a), missing, family);
    let m = choose|m: int| 0 <= m < missing.len() && missing[m] == a.libraries[i];
    assert(first.contains(report::install_step(missing[m].name, family)));
    let k = choose|k: int| 0 <= k < first.len() && first[k] == step;
    lemma_installs_len(report::file_steps(a), missing, family);
    lemma_repairs_prefix(first, unusable);
    assert(second[k] == step);
    assert(all[k] == step);
    assert(report::steps_of(a, family)[k] == step);
}

proof fn lemma_installs_len(steps: Seq<Seq<char>>, missing: Seq<LibraryView>, family: Family)
    ensures
        report::with_installs(steps, missing, family).len() <= steps.len() + missing.len(),
    decreases missing.len(),
{
    if missing.len() > 0 {
        lemma_installs_len(steps, missing.drop_last(), family);
    }
}

proof fn lemma_repairs_prefix(steps: Seq<Seq<char>>, unusable: Seq<LibraryView>)
    ensures
        steps.is_prefix_of(report::with_repairs(steps, unusable)),
    decreases unusable.len(),
{
    if unusable.len() > 0 {
        lemma_repairs_prefix(steps, unusable.drop_last());
    }
}

/// The missing libraries are those that are missing, and the unusable ones all
/// that were not found, each in their order.
pub proof fn libraries_are_told_apart(libraries: Seq<LibraryView>)
    ensures
        analyze::missing_among(libraries) == libraries.filter(
            |l: LibraryView| l.resolution is Missing,
        ),
        analyze::unusable_among(libraries) == libraries.filter(
            |l: LibraryView| !(l.resolution is Found),
        ),
    decreases libraries.len(),
{
    reveal(Seq::filter);
    if libraries.len() > 0 {
        libraries_are_told_apart(libraries.drop_last());
    }
}

/// What is counted as a problem: a file that is no program, an architecture that
/// cannot run here, a file that may not be executed, an interpreter that is not
/// there, may not be executed or cannot load the program, every library that was
/// not found, every symbol that is open and every version that is lacking.
pub proof fn problems_are_counted(a: AnalysisView)
    ensures
        a.problems() == (if a.not_a_program is Some {
            1nat
        } else {
            0nat
        }) + (if a.arch is Some && !(a.arch->0).compatible {
            1nat
        } else {
            0nat
        }) + (if a.permissions is Some && !(a.permissions->0).executable {
            1nat
        } else {
            0nat
        }) + (if a.interpreter is Some && !((a.interpreter->0).exists && (
        a.interpreter->0).executable && (a.interpreter->0).problem is None) {
            1nat
        } else {
            0nat
        }) + a.libraries.filter(|l: LibraryView| !(l.resolution is Found)).len()
            + a.unresolved.len() + a.version_problems.len(),
        a.kind is NotElf <==> a.code() == 2,
        !(a.kind is NotElf) ==> (a.code() == 1 <==> a.problems() > 0) && (a.code() == 0
            <==> a.problems() == 0),
{
    libraries_are_told_apart(a.libraries);
}

} // verus!
