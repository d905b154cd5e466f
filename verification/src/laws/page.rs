//! The page: what each section says, line by line.

use vstd::prelude::*;
use crate::analyze;
use crate::analyze::{
    AnalysisView, ArchView, EnvView, InterpreterView, KindView, LibraryView, PermissionView,
    ProblemView, ResolutionView, Status, UnresolvedView, VersionView,
};
use crate::cli::OptionsView;
use crate::distro::Family;
use crate::elf;
use crate::elf::{Class, ElfType, ElfView, VersionNeedView};
use crate::report;
use crate::report::Painter;
use crate::text;

verus! {

// ---------------------------------------------------------------------------
// Lines
// ---------------------------------------------------------------------------

/// A line with its line feed.
pub open spec fn ended() -> spec_fn(Seq<char>) -> Seq<char> {
    |l: Seq<char>| l.push('\n')
}

/// Lines, each with its line feed.
pub open spec fn lines(ls: Seq<Seq<char>>) -> Seq<char> {
    ls.map_values(ended()).flatten()
}

proof fn lemma_line(s: Seq<char>)
    ensures
        report::line(s) == s.push('\n'),
{
    reveal_strlit("\n");
    assert(report::line(s) =~= s.push('\n'));
}

proof fn lemma_lines_push(ls: Seq<Seq<char>>, l: Seq<char>)
    ensures
        lines(ls.push(l)) == lines(ls) + report::line(l),
{
    lemma_line(l);
    assert(ls.push(l).map_values(ended()) =~= ls.map_values(ended()).push(l.push('\n')));
    ls.map_values(ended()).lemma_flatten_push(l.push('\n'));
}

proof fn lemma_no_lines()
    ensures
        lines(Seq::empty()) == Seq::<char>::empty(),
{
    assert(Seq::<Seq<char>>::empty().map_values(ended()) =~= Seq::<Seq<char>>::empty());
}

proof fn lemma_one_line(a: Seq<char>)
    ensures
        lines(seq![a]) == report::line(a),
{
    lemma_no_lines();
    lemma_lines_push(Seq::empty(), a);
    assert(Seq::<Seq<char>>::empty().push(a) =~= seq![a]);
    assert(Seq::<char>::empty() + report::line(a) =~= report::line(a));
}

proof fn lemma_two_lines(a: Seq<char>, b: Seq<char>)
    ensures
        lines(seq![a, b]) == report::line(a) + report::line(b),
{
    lemma_one_line(a);
    lemma_lines_push(seq![a], b);
    assert(seq![a].push(b) =~= seq![a, b]);
}

proof fn lemma_three_lines(a: Seq<char>, b: Seq<char>, c: Seq<char>)
    ensures
        lines(seq![a, b, c]) == report::line(a) + report::line(b) + report::line(c),
{
    lemma_two_lines(a, b);
    lemma_lines_push(seq![a, b], c);
    assert(seq![a, b].push(c) =~= seq![a, b, c]);
}

proof fn lemma_four_lines(a: Seq<char>, b: Seq<char>, c: Seq<char>, d: Seq<char>)
    ensures
        lines(seq![a, b, c, d]) == report::line(a) + report::line(b) + report::line(c)
            + report::line(d),
{
    lemma_three_lines(a, b, c);
    lemma_lines_push(seq![a, b, c], d);
    assert(seq![a, b, c].push(d) =~= seq![a, b, c, d]);
}

proof fn lemma_lines_sum(a: Seq<Seq<char>>, b: Seq<Seq<char>>)
    ensures
        lines(a + b) == lines(a) + lines(b),
    decreases b.len(),
{
    if b.len() == 0 {
        lemma_no_lines();
        assert(a + b =~= a);
        assert(b =~= Seq::<Seq<char>>::empty());
        assert(lines(a) + lines(b) =~= lines(a));
    } else {
        let front = b.drop_last();
        lemma_lines_sum(a, front);
        assert(a + b =~= (a + front).push(b.last()));
        assert(b =~= front.push(b.last()));
        lemma_lines_push(a + front, b.last());
        lemma_lines_push(front, b.last());
        assert(lines(a) + lines(front) + report::line(b.last()) =~= lines(a) + (lines(front)
            + report::line(b.last())));
    }
}

/// A finding of several lines for each of several things, in their order.
pub open spec fn lines_for_each<T>(things: Seq<T>, says: spec_fn(T) -> Seq<Seq<char>>) -> Seq<
    Seq<char>,
> {
    things.map_values(says).flatten()
}

proof fn lemma_for_each<T>(things: Seq<T>, last: T, says: spec_fn(T) -> Seq<Seq<char>>)
    ensures
        lines(lines_for_each(things.push(last), says)) == lines(lines_for_each(things, says))
            + lines(says(last)),
{
    assert(things.push(last).map_values(says) =~= things.map_values(says).push(says(last)));
    things.map_values(says).lemma_flatten_push(says(last));
    lemma_lines_sum(lines_for_each(things, says), says(last));
}

proof fn lemma_for_none<T>(says: spec_fn(T) -> Seq<Seq<char>>)
    ensures
        lines(lines_for_each(Seq::empty(), says)) == Seq::<char>::empty(),
{
    assert(Seq::<T>::empty().map_values(says) =~= Seq::<Seq<Seq<char>>>::empty());
    assert(lines_for_each(Seq::<T>::empty(), says) =~= Seq::<Seq<char>>::empty());
    lemma_no_lines();
}

// ---------------------------------------------------------------------------
// Colours, marks and columns
// ---------------------------------------------------------------------------

/// A painter without colours leaves texts alone; one with colours puts the code
/// in front and takes it back behind: 1 for bold and 2 for dim, green where all
/// is well, yellow for a warning, red for a failure and cyan for the rest.
#[verifier::rlimit(40)]
pub proof fn texts_are_painted(s: Seq<char>, status: Status)
    ensures
        ({
            let p = Painter { color: true };
            let plain = Painter { color: false };
            &&& p.bolded(s) == "\x1b[1m"@ + s + "\x1b[0m"@ && plain.bolded(s) == s
            &&& p.dimmed(s) == "\x1b[2m"@ + s + "\x1b[0m"@ && plain.dimmed(s) == s
            &&& plain.tinted(status, s) == s
            &&& p.tinted(Status::Fine, s) == "\x1b[32m"@ + s + "\x1b[0m"@
            &&& p.tinted(Status::Warn, s) == "\x1b[33m"@ + s + "\x1b[0m"@
            &&& p.tinted(Status::Fail, s) == "\x1b[31m"@ + s + "\x1b[0m"@
            &&& p.tinted(Status::Info, s) == "\x1b[36m"@ + s + "\x1b[0m"@
        }),
{
    reveal_strlit("\x1b[");
    reveal_strlit("m");
    reveal_strlit("1");
    reveal_strlit("2");
    reveal_strlit("31");
    reveal_strlit("32");
    reveal_strlit("33");
    reveal_strlit("36");
    reveal_strlit("\x1b[1m");
    reveal_strlit("\x1b[2m");
    reveal_strlit("\x1b[31m");
    reveal_strlit("\x1b[32m");
    reveal_strlit("\x1b[33m");
    reveal_strlit("\x1b[36m");
    assert("\x1b["@ + "1"@ + "m"@ =~= "\x1b[1m"@);
    assert("\x1b["@ + "2"@ + "m"@ =~= "\x1b[2m"@);
    assert("\x1b["@ + "31"@ + "m"@ =~= "\x1b[31m"@);
    assert("\x1b["@ + "32"@ + "m"@ =~= "\x1b[32m"@);
    assert("\x1b["@ + "33"@ + "m"@ =~= "\x1b[33m"@);
    assert("\x1b["@ + "36"@ + "m"@ =~= "\x1b[36m"@);
}

/// The mark of each status.
pub proof fn statuses_have_marks()
    ensures
        report::glyph(Status::Fine, true) == "[ok]"@ && report::glyph(Status::Fine, false) == "✓"@,
        report::glyph(Status::Warn, true) == "[!]"@ && report::glyph(Status::Warn, false) == "⚠"@,
        report::glyph(Status::Fail, true) == "[x]"@ && report::glyph(Status::Fail, false) == "✗"@,
        report::glyph(Status::Info, true) == "[-]"@ && report::glyph(Status::Info, false) == "•"@,
{
}

/// A section begins with its mark and its title.
pub open spec fn heading(p: Painter, status: Status, title: Seq<char>, ascii: bool) -> Seq<char> {
    p.tinted(status, report::glyph(status, ascii)) + " "@ + p.bolded(title)
}

/// A row holds its two texts, the first two columns from the left, and the other
/// one so that it ends at the same column in every row that has room for both;
/// where there is no room, two blanks stand between them.
#[verifier::rlimit(40)]
pub proof fn rows_are_aligned(p: Painter, left: Seq<char>, right: Seq<char>, status: Status)
    ensures
        ({
            let row = report::row_text(Painter { color: false }, left, right, status);
            let at = row.len() - right.len();
            &&& left.len() + right.len() + 2 <= 54 ==> row.len() == 56
            &&& left.len() + right.len() + 2 > 54 ==> row.len() == left.len() + right.len() + 4
            &&& row.subrange(2, (2 + left.len()) as int) == left
            &&& at >= 2 + left.len() + 2 && row.subrange(at, row.len() as int) == right
            &&& row[0] == ' ' && row[1] == ' '
            &&& forall|k: int| 2 + left.len() <= k < at ==> #[trigger] row[k] == ' '
            &&& report::row_text(p, left, right, status) == row.take(at) + p.tinted(status, right)
        }),
{
    reveal_strlit("  ");
    let row = report::row_text(Painter { color: false }, left, right, status);
    let at = row.len() - right.len();
    let blanks = report::spaces(report::gap(left.len(), right.len()));
    assert(row == "  "@ + left + blanks + right);
    assert(row.subrange(2, (2 + left.len()) as int) =~= left);
    assert(row.subrange(at, row.len() as int) =~= right);
    assert(row.take(at) =~= "  "@ + left + blanks);
}

/// A text that is too long is cut, and what is left of it ends in an ellipsis.
pub proof fn long_texts_are_cut(s: Seq<char>, max: nat)
    ensures
        s.len() <= max ==> report::shortened(s, max) == s,
        s.len() > max && max > 0 ==> report::shortened(s, max) == s.take(max - 1).push('…'),
        s.len() > 0 ==> report::shortened(s, 0) == seq!['…'],
{
    reveal_strlit("…");
    assert("…"@ =~= seq!['…']);
    if s.len() > max && max > 0 {
        assert(report::shortened(s, max) =~= s.take(max - 1).push('…'));
    }
}

/// One thing is named in the singular, and every other number in the plural.
pub proof fn numbers_have_endings(n: nat)
    ensures
        report::ending(1).len() == 0,
        n != 1 ==> report::ending(n) == "s"@,
{
    reveal_strlit("");
}

// ---------------------------------------------------------------------------
// The file
// ---------------------------------------------------------------------------

/// The page begins with a question, the path and the kind of the file.
pub proof fn the_page_begins_with_the_file(p: Painter, a: AnalysisView)
    ensures
        ({
            let kind = match a.kind {
                KindView::Elf(o) => o.kind_text() + " · "@ + text::decimal(
                    if o.class == Class::Elf64 {
                        64
                    } else {
                        32
                    },
                ) + "-bit "@ + elf::machine_text(o.machine),
                KindView::Script { .. } => "script"@,
                KindView::NotElf { description } => description,
            };
            report::head_text(p, a) == lines(
                seq![
                    p.bolded("WHY DOES THIS PROGRAM NOT WORK?"@),
                    ""@,
                    "  "@ + p.tinted(Status::Info, a.path),
                    "  "@ + p.dimmed(kind),
                    ""@,
                ],
            )
        }),
{
    let question = p.bolded("WHY DOES THIS PROGRAM NOT WORK?"@);
    let path = "  "@ + p.tinted(Status::Info, a.path);
    let kind = "  "@ + p.dimmed(report::kind_line(a.kind));
    lemma_four_lines(question, ""@, path, kind);
    lemma_lines_push(seq![question, ""@, path, kind], ""@);
    assert(seq![question, ""@, path, kind].push(""@) =~= seq![question, ""@, path, kind, ""@]);
}

/// A file that is no program is told to be none, with the reason.
pub proof fn the_file_type_is_told(p: Painter, a: AnalysisView, ascii: bool)
    ensures
        a.not_a_program is None ==> report::file_type_text(p, a, ascii).len() == 0,
        a.not_a_program matches Some(reason) ==> report::file_type_text(p, a, ascii) == lines(
            seq![
                heading(p, Status::Fail, "File type"@, ascii),
                report::row_text(p, a.path, "not runnable"@, Status::Fail),
                "      "@ + reason,
                ""@,
            ],
        ),
{
    match a.not_a_program {
        Some(reason) => lemma_four_lines(
            heading(p, Status::Fail, "File type"@, ascii),
            report::row_text(p, a.path, "not runnable"@, Status::Fail),
            "      "@ + reason,
            ""@,
        ),
        None => {},
    }
}

/// Whether the file may be executed is told, with the mode where it may not.
pub proof fn the_permission_is_told(p: Painter, f: PermissionView, ascii: bool)
    ensures
        report::permissions_text(p, None, ascii).len() == 0,
        f.executable ==> report::permissions_text(p, Some(f), ascii) == lines(
            seq![
                heading(p, Status::Fine, "Executable permission"@, ascii),
                report::row_text(p, f.path, "executable"@, Status::Fine),
                ""@,
            ],
        ),
        !f.executable ==> report::permissions_text(p, Some(f), ascii) == lines(
            seq![
                heading(p, Status::Fail, "Executable permission"@, ascii),
                report::row_text(
                    p,
                    f.path,
                    "not executable (mode "@ + text::octal4(f.mode as nat) + ")"@,
                    Status::Fail,
                ),
                ""@,
            ],
        ),
{
    lemma_three_lines(
        heading(p, Status::Fine, "Executable permission"@, ascii),
        report::row_text(p, f.path, "executable"@, Status::Fine),
        ""@,
    );
    lemma_three_lines(
        heading(p, Status::Fail, "Executable permission"@, ascii),
        report::row_text(
            p,
            f.path,
            "not executable (mode "@ + text::octal4(f.mode as nat) + ")"@,
            Status::Fail,
        ),
        ""@,
    );
}

/// What is said of an architecture beside that of the host, and how bad it is.
pub open spec fn comparison_of(f: ArchView) -> (Status, Seq<char>) {
    let bits = text::decimal(
        if f.class == Class::Elf64 {
            64
        } else {
            32
        },
    );
    if f.host_name is None {
        (Status::Info, "host architecture unknown"@)
    } else if f.exact {
        (Status::Fine, "matches this system ("@ + f.host_name->0 + ", "@ + bits + "-bit)"@)
    } else if f.compatible {
        (Status::Warn, "compatible with "@ + f.host_name->0 + " (needs multilib support)"@)
    } else {
        (Status::Fail, "this system is "@ + f.host_name->0)
    }
}

/// The architecture is told beside that of the host: they match, they can be
/// used together, they cannot, or the host is not known.
pub proof fn the_architecture_is_told(p: Painter, f: ArchView, ascii: bool)
    ensures
        report::arch_text(p, None, ascii).len() == 0,
        report::arch_text(p, Some(f), ascii) == lines(
            seq![
                heading(p, comparison_of(f).0, "Architecture"@, ascii),
                report::row_text(
                    p,
                    f.name + ", "@ + text::decimal(
                        if f.class == Class::Elf64 {
                            64
                        } else {
                            32
                        },
                    ) + "-bit"@,
                    comparison_of(f).1,
                    comparison_of(f).0,
                ),
                ""@,
            ],
        ),
{
    assert(report::comparison(f) == comparison_of(f));
    lemma_three_lines(
        heading(p, comparison_of(f).0, "Architecture"@, ascii),
        report::row_text(
            p,
            f.name + ", "@ + text::decimal(f.class.width() as nat) + "-bit"@,
            comparison_of(f).1,
            comparison_of(f).0,
        ),
        ""@,
    );
}

// ---------------------------------------------------------------------------
// The interpreter
// ---------------------------------------------------------------------------

/// Why an object has no interpreter.
pub proof fn a_lacking_interpreter_is_explained(p: Painter, a: AnalysisView, o: ElfView, ascii: bool)
    requires
        a.interpreter is None,
        a.kind == KindView::Elf(o),
    ensures
        ({
            let why = if o.etype == ElfType::Shared {
                "  not applicable (shared library)"@
            } else if o.etype == ElfType::Relocatable {
                "  not applicable (relocatable object)"@
            } else if o.etype == ElfType::Core {
                "  not applicable (core dump)"@
            } else {
                "  not used (statically linked)"@
            };
            report::interpreter_text(p, a, ascii) == lines(
                seq![heading(p, Status::Info, "ELF interpreter"@, ascii), why, ""@],
            )
        }),
{
    reveal_strlit("  ");
    reveal_strlit("not applicable (shared library)");
    reveal_strlit("not applicable (relocatable object)");
    reveal_strlit("not applicable (core dump)");
    reveal_strlit("not used (statically linked)");
    reveal_strlit("  not applicable (shared library)");
    reveal_strlit("  not applicable (relocatable object)");
    reveal_strlit("  not applicable (core dump)");
    reveal_strlit("  not used (statically linked)");
    assert("  "@ + "not applicable (shared library)"@ =~= "  not applicable (shared library)"@);
    assert("  "@ + "not applicable (relocatable object)"@
        =~= "  not applicable (relocatable object)"@);
    assert("  "@ + "not applicable (core dump)"@ =~= "  not applicable (core dump)"@);
    assert("  "@ + "not used (statically linked)"@ =~= "  not used (statically linked)"@);
    lemma_three_lines(
        heading(p, Status::Info, "ELF interpreter"@, ascii),
        "  "@ + report::no_interpreter(o),
        ""@,
    );
}

/// What is said of an interpreter: it is not there, may not be executed, is of
/// the wrong architecture, is no loader, or is there.
pub open spec fn state_of(i: InterpreterView) -> Seq<char> {
    if !i.exists {
        "MISSING"@
    } else if !i.executable {
        "not executable"@
    } else if i.problem is None {
        "present"@
    } else if i.problem->0 is WrongArchitecture {
        "wrong architecture"@
    } else {
        "not a valid loader"@
    }
}

/// The state of an interpreter is told, and what is wrong with it as a loader.
/// Only one that is there, may be executed and has no problem is fine.
#[verifier::rlimit(40)]
pub proof fn an_interpreter_is_told(p: Painter, a: AnalysisView, i: InterpreterView, ascii: bool)
    requires
        a.interpreter == Some(i),
    ensures
        ({
            let title = if a.kind is Script {
                "Interpreter"@
            } else {
                "ELF interpreter"@
            };
            let status = if i.exists && i.executable && i.problem is None {
                Status::Fine
            } else {
                Status::Fail
            };
            let top = heading(p, status, title, ascii);
            let row = report::row_text(p, i.path, state_of(i), status);
            let told = report::interpreter_text(p, a, ascii);
            &&& i.problem is None ==> told == lines(seq![top, row, ""@])
            &&& i.problem matches Some(ProblemView::NotLoadable(reason)) ==> told == lines(
                seq![top, row, "      "@ + reason, ""@],
            )
            &&& i.problem matches Some(ProblemView::WrongArchitecture { found, wanted }) ==> told
                == lines(
                seq![
                    top,
                    row,
                    "      built for "@ + found + ", but the program is "@ + wanted,
                    ""@,
                ],
            )
        }),
{
    let title = if a.kind is Script {
        "Interpreter"@
    } else {
        "ELF interpreter"@
    };
    let status = if i.works() {
        Status::Fine
    } else {
        Status::Fail
    };
    let top = heading(p, status, title, ascii);
    assert(state_of(i) == report::interpreter_value(i));
    let row = report::row_text(p, i.path, state_of(i), status);
    lemma_three_lines(top, row, ""@);
    match i.problem {
        None => {
            assert(report::line(top) + report::line(row) + Seq::<char>::empty() + report::line(""@)
                =~= report::line(top) + report::line(row) + report::line(""@));
        },
        Some(ProblemView::NotLoadable(reason)) => {
            lemma_four_lines(top, row, "      "@ + reason, ""@);
        },
        Some(ProblemView::WrongArchitecture { found, wanted }) => {
            lemma_four_lines(
                top,
                row,
                "      built for "@ + found + ", but the program is "@ + wanted,
                ""@,
            );
        },
    }
}

/// Of the interpreter of what is neither a script nor an ELF object nothing is
/// said.
pub proof fn others_have_no_interpreter(p: Painter, a: AnalysisView, ascii: bool)
    ensures
        a.interpreter is None && !(a.kind is Elf) ==> report::interpreter_text(p, a, ascii).len()
            == 0,
{
}

// ---------------------------------------------------------------------------
// Libraries
// ---------------------------------------------------------------------------

/// The lines for what requires a library, one for each.
pub open spec fn required_by() -> spec_fn(Seq<char>) -> Seq<Seq<char>> {
    |object: Seq<char>| seq!["      required by "@ + object]
}

proof fn lemma_requirers(needed_by: Seq<Seq<char>>)
    ensures
        report::requirers_text(needed_by) == lines(lines_for_each(needed_by, required_by())),
    decreases needed_by.len(),
{
    if needed_by.len() == 0 {
        lemma_for_none(required_by());
        assert(needed_by =~= Seq::<Seq<char>>::empty());
    } else {
        let front = needed_by.drop_last();
        lemma_requirers(front);
        lemma_for_each(front, needed_by.last(), required_by());
        lemma_one_line("      required by "@ + needed_by.last());
        assert(needed_by =~= front.push(needed_by.last()));
    }
}

/// The lines for a library that cannot be used: what is wrong with it, and
/// everything that requires it.
pub open spec fn complaint(p: Painter) -> spec_fn(LibraryView) -> Seq<Seq<char>> {
    |l: LibraryView|
        (match l.resolution {
            ResolutionView::WrongArchitecture { path, found, wanted } => seq![
                report::row_text(p, l.name, "WRONG ARCH"@, Status::Fail),
                "      found "@ + path + " ("@ + found + "), but a "@ + wanted
                    + " object is required"@,
            ],
            ResolutionView::Unusable { path, reason } => seq![
                report::row_text(p, l.name, "UNUSABLE"@, Status::Fail),
                "      "@ + path + " is "@ + reason,
            ],
            _ => seq![report::row_text(p, l.name, "MISSING"@, Status::Fail)],
        }) + lines_for_each(l.needed_by, required_by())
}

proof fn lemma_complaint(p: Painter, l: LibraryView)
    ensures
        report::unusable_text(p, l) == lines(complaint(p)(l)),
{
    lemma_requirers(l.needed_by);
    let behind = lines_for_each(l.needed_by, required_by());
    match l.resolution {
        ResolutionView::WrongArchitecture { path, found, wanted } => {
            let row = report::row_text(p, l.name, "WRONG ARCH"@, Status::Fail);
            let more = "      found "@ + path + " ("@ + found + "), but a "@ + wanted
                + " object is required"@;
            lemma_two_lines(row, more);
            lemma_lines_sum(seq![row, more], behind);
        },
        ResolutionView::Unusable { path, reason } => {
            let row = report::row_text(p, l.name, "UNUSABLE"@, Status::Fail);
            let more = "      "@ + path + " is "@ + reason;
            lemma_two_lines(row, more);
            lemma_lines_sum(seq![row, more], behind);
        },
        _ => {
            let row = report::row_text(p, l.name, "MISSING"@, Status::Fail);
            lemma_one_line(row);
            lemma_lines_sum(seq![row], behind);
        },
    }
}

proof fn lemma_complaints(p: Painter, libraries: Seq<LibraryView>)
    ensures
        report::unusables_text(p, libraries) == lines(lines_for_each(libraries, complaint(p))),
    decreases libraries.len(),
{
    if libraries.len() == 0 {
        lemma_for_none(complaint(p));
        assert(libraries =~= Seq::<LibraryView>::empty());
    } else {
        let front = libraries.drop_last();
        lemma_complaints(p, front);
        lemma_complaint(p, libraries.last());
        lemma_for_each(front, libraries.last(), complaint(p));
        assert(libraries =~= front.push(libraries.last()));
    }
}

/// The line for a library that was found.
pub open spec fn finding(p: Painter) -> spec_fn(LibraryView) -> Seq<Seq<char>> {
    |l: LibraryView|
        match l.resolution {
            ResolutionView::Found(path) => seq![report::row_text(p, l.name, path, Status::Fine)],
            _ => Seq::empty(),
        }
}

proof fn lemma_findings(p: Painter, libraries: Seq<LibraryView>)
    ensures
        report::found_text(p, libraries) == lines(lines_for_each(libraries, finding(p))),
    decreases libraries.len(),
{
    if libraries.len() == 0 {
        lemma_for_none(finding(p));
        assert(libraries =~= Seq::<LibraryView>::empty());
    } else {
        let front = libraries.drop_last();
        let last = libraries.last();
        lemma_findings(p, front);
        lemma_for_each(front, last, finding(p));
        lemma_no_lines();
        match last.resolution {
            ResolutionView::Found(path) => lemma_one_line(
                report::row_text(p, last.name, path, Status::Fine),
            ),
            _ => {},
        }
        assert(libraries =~= front.push(last));
    }
}

/// The libraries are counted, every one that cannot be used is told with all
/// that requires it, and where everything is asked for, every one that was found
/// with its path.
#[verifier::rlimit(40)]
pub proof fn the_libraries_are_told(p: Painter, a: AnalysisView, options: OptionsView)
    requires
        a.kind is Elf,
        a.libraries.len() > 0,
    ensures
        ({
            let unusable = a.libraries.filter(|l: LibraryView| !(l.resolution is Found));
            let status = if unusable.len() == 0 {
                Status::Fine
            } else {
                Status::Fail
            };
            let top = seq![
                heading(p, status, "Shared libraries"@, options.ascii),
                "  "@ + text::decimal((a.libraries.len() - unusable.len()) as nat)
                    + " resolved, "@ + text::decimal(unusable.len()) + " unusable"@,
            ];
            let middle = lines_for_each(unusable, complaint(p));
            let found = lines_for_each(a.libraries, finding(p));
            &&& options.verbose ==> report::libraries_text(p, a, options) == lines(
                top + middle + found + seq![""@],
            )
            &&& !options.verbose ==> report::libraries_text(p, a, options) == lines(
                top + middle + seq![""@],
            )
        }),
{
    super::advice::libraries_are_told_apart(a.libraries);
    let unusable = analyze::unusable_among(a.libraries);
    let status = if unusable.len() == 0 {
        Status::Fine
    } else {
        Status::Fail
    };
    let first = heading(p, status, "Shared libraries"@, options.ascii);
    let second = "  "@ + text::decimal((a.libraries.len() - unusable.len()) as nat)
        + " resolved, "@ + text::decimal(unusable.len()) + " unusable"@;
    let top = seq![first, second];
    let middle = lines_for_each(unusable, complaint(p));
    let found = lines_for_each(a.libraries, finding(p));
    lemma_two_lines(first, second);
    lemma_complaints(p, unusable);
    lemma_findings(p, a.libraries);
    lemma_one_line(""@);
    lemma_lines_sum(top, middle);
    lemma_lines_sum(top + middle, found);
    lemma_lines_sum(top + middle + found, seq![""@]);
    lemma_lines_sum(top + middle, seq![""@]);
    assert(lines(top + middle) + Seq::<char>::empty() =~= lines(top + middle));
}

/// An object without libraries is said to be statically linked, and of what is
/// no ELF object no libraries are told.
pub proof fn no_libraries_are_told(p: Painter, a: AnalysisView, options: OptionsView)
    ensures
        !(a.kind is Elf) ==> report::libraries_text(p, a, options).len() == 0,
        a.kind is Elf && a.libraries.len() == 0 ==> report::libraries_text(p, a, options) == lines(
            seq![
                heading(p, Status::Info, "Shared libraries"@, options.ascii),
                "  none (statically linked)"@,
                ""@,
            ],
        ),
{
    lemma_three_lines(
        heading(p, Status::Info, "Shared libraries"@, options.ascii),
        "  none (statically linked)"@,
        ""@,
    );
}

// ---------------------------------------------------------------------------
// Symbols and versions
// ---------------------------------------------------------------------------

/// The line for a symbol: its name with its version, and the object that wants
/// it.
pub open spec fn open_symbol(p: Painter) -> spec_fn(UnresolvedView) -> Seq<Seq<char>> {
    |s: UnresolvedView|
        seq![
            report::row_text(
                p,
                match s.version {
                    Some(version) => s.name + "@"@ + version,
                    None => s.name,
                },
                s.object,
                Status::Fail,
            ),
        ]
}

proof fn lemma_symbols(p: Painter, symbols: Seq<UnresolvedView>)
    ensures
        report::symbol_rows(p, symbols) == lines(lines_for_each(symbols, open_symbol(p))),
    decreases symbols.len(),
{
    if symbols.len() == 0 {
        lemma_for_none(open_symbol(p));
        assert(symbols =~= Seq::<UnresolvedView>::empty());
    } else {
        let front = symbols.drop_last();
        let last = symbols.last();
        lemma_symbols(p, front);
        lemma_for_each(front, last, open_symbol(p));
        lemma_one_line(report::row_text(p, report::symbol_name(last), last.object, Status::Fail));
        assert(symbols =~= front.push(last));
    }
}

/// Open symbols are counted and told. More than twenty of them are told only
/// where everything is asked for; where they are not, it is said how many are
/// left out.
#[verifier::rlimit(40)]
pub proof fn open_symbols_are_told(p: Painter, a: AnalysisView, o: ElfView, options: OptionsView)
    requires
        a.kind == KindView::Elf(o),
        o.has_dynamic,
        a.unresolved.len() > 0,
    ensures
        ({
            let n = a.unresolved.len();
            let top = seq![
                heading(p, Status::Fail, "Symbol dependencies"@, options.ascii),
                "  "@ + text::decimal(n) + " unresolved symbol"@ + report::ending(n),
            ];
            &&& options.verbose || n <= 20 ==> report::symbols_text(p, a, options) == lines(
                top + lines_for_each(a.unresolved, open_symbol(p)) + seq![""@],
            )
            &&& !options.verbose && n > 20 ==> report::symbols_text(p, a, options) == lines(
                top + lines_for_each(a.unresolved.take(20), open_symbol(p)) + seq![
                    "  … and "@ + text::decimal((n - 20) as nat) + " more (use --verbose)"@,
                    ""@,
                ],
            )
        }),
{
    let n = a.unresolved.len();
    let first = heading(p, Status::Fail, "Symbol dependencies"@, options.ascii);
    let second = "  "@ + text::decimal(n) + " unresolved symbol"@ + report::ending(n);
    let top = seq![first, second];
    let shown = a.unresolved.take(report::shown(n, options.verbose) as int);
    let middle = lines_for_each(shown, open_symbol(p));
    lemma_two_lines(first, second);
    lemma_symbols(p, shown);
    lemma_lines_sum(top, middle);
    lemma_one_line(""@);
    lemma_lines_sum(top + middle, seq![""@]);
    if options.verbose || n <= 20 {
        assert(shown =~= a.unresolved);
        assert(lines(top + middle) + Seq::<char>::empty() =~= lines(top + middle));
    } else {
        let more = "  … and "@ + text::decimal((n - 20) as nat) + " more (use --verbose)"@;
        lemma_two_lines(more, ""@);
        lemma_lines_sum(top + middle, seq![more, ""@]);
        assert(lines(top + middle) + (report::line(more) + report::line(""@)) =~= lines(top
            + middle) + report::line(more) + report::line(""@));
    }
}

/// Where no symbol is open it is said so, and of a statically linked object that
/// the question does not arise.
pub proof fn no_open_symbols_are_told(p: Painter, a: AnalysisView, options: OptionsView)
    ensures
        !(a.kind is Elf) ==> report::symbols_text(p, a, options).len() == 0,
        a.kind matches KindView::Elf(o) ==> {
            &&& !o.has_dynamic ==> report::symbols_text(p, a, options) == lines(
                seq![
                    heading(p, Status::Info, "Symbol dependencies"@, options.ascii),
                    "  not applicable (statically linked)"@,
                    ""@,
                ],
            )
            &&& o.has_dynamic && a.unresolved.len() == 0 ==> report::symbols_text(p, a, options)
                == lines(
                seq![
                    heading(p, Status::Fine, "Symbol dependencies"@, options.ascii),
                    "  every imported symbol is provided"@,
                    ""@,
                ],
            )
        },
{
    lemma_three_lines(
        heading(p, Status::Info, "Symbol dependencies"@, options.ascii),
        "  not applicable (statically linked)"@,
        ""@,
    );
    lemma_three_lines(
        heading(p, Status::Fine, "Symbol dependencies"@, options.ascii),
        "  every imported symbol is provided"@,
        ""@,
    );
}

/// The lines for a version that a library lacks: the library, the version, what
/// requires it, and what is provided.
pub open spec fn lacking_version(p: Painter) -> spec_fn(VersionView) -> Seq<Seq<char>> {
    |v: VersionView|
        seq![
            report::row_text(p, v.library, "needs "@ + v.required, Status::Fail),
            "      required by "@ + v.object + "; "@ + (match v.library_path {
                Some(path) => path,
                None => "the system"@,
            }) + " provides "@ + (match v.best_provided {
                Some(version) => version,
                None => "an older version"@,
            }),
        ]
}

proof fn lemma_versions(p: Painter, problems: Seq<VersionView>)
    ensures
        report::version_rows(p, problems) == lines(lines_for_each(problems, lacking_version(p))),
    decreases problems.len(),
{
    if problems.len() == 0 {
        lemma_for_none(lacking_version(p));
        assert(problems =~= Seq::<VersionView>::empty());
    } else {
        let front = problems.drop_last();
        let last = problems.last();
        lemma_versions(p, front);
        lemma_for_each(front, last, lacking_version(p));
        lemma_two_lines(lacking_version(p)(last)[0], lacking_version(p)(last)[1]);
        assert(lacking_version(p)(last) =~= seq![
            lacking_version(p)(last)[0],
            lacking_version(p)(last)[1],
        ]);
        assert(problems =~= front.push(last));
    }
}

/// How many versions an object asks for: all those of every library.
pub proof fn all_needed_versions_are_counted(needs: Seq<VersionNeedView>, more: VersionNeedView)
    ensures
        report::version_count(Seq::empty()) == 0,
        report::version_count(needs.push(more)) == report::version_count(needs)
            + more.versions.len(),
{
    assert(needs.push(more).drop_last() =~= needs);
}

/// Every version that a library lacks is told; where none is lacking, that is
/// said only where everything is asked for.
#[verifier::rlimit(40)]
pub proof fn lacking_versions_are_told(p: Painter, a: AnalysisView, options: OptionsView)
    ensures
        !(a.kind is Elf) ==> report::versions_text(p, a, options).len() == 0,
        a.kind matches KindView::Elf(o) ==> {
            let told = report::versions_text(p, a, options);
            let n = report::version_count(o.version_needs);
            &&& a.version_problems.len() > 0 ==> told == lines(
                seq![heading(p, Status::Fail, "Library versions"@, options.ascii)]
                    + lines_for_each(a.version_problems, lacking_version(p)) + seq![""@],
            )
            &&& a.version_problems.len() == 0 && (!options.verbose || o.version_needs.len() == 0)
                ==> told.len() == 0
            &&& a.version_problems.len() == 0 && options.verbose && o.version_needs.len() > 0 && n
                <= usize::MAX ==> told == lines(
                seq![
                    heading(p, Status::Fine, "Library versions"@, options.ascii),
                    "  "@ + text::decimal(n) + " symbol version requirements satisfied"@,
                    ""@,
                ],
            )
        },
{
    match a.kind {
        KindView::Elf(o) => {
            let n = report::version_count(o.version_needs);
            let bad = heading(p, Status::Fail, "Library versions"@, options.ascii);
            let middle = lines_for_each(a.version_problems, lacking_version(p));
            lemma_one_line(bad);
            lemma_one_line(""@);
            lemma_versions(p, a.version_problems);
            lemma_lines_sum(seq![bad], middle);
            lemma_lines_sum(seq![bad] + middle, seq![""@]);
            lemma_three_lines(
                heading(p, Status::Fine, "Library versions"@, options.ascii),
                "  "@ + text::decimal(n) + " symbol version requirements satisfied"@,
                ""@,
            );
        },
        _ => {},
    }
}

// ---------------------------------------------------------------------------
// The environment, notes and steps
// ---------------------------------------------------------------------------

/// The lines for a variable: its value, cut to sixty characters, and what it
/// does.
pub open spec fn variable(p: Painter) -> spec_fn(EnvView) -> Seq<Seq<char>> {
    |f: EnvView|
        seq![
            report::row_text(
                p,
                f.variable + "="@ + report::shortened(f.value, 60),
                "set"@,
                f.status,
            ),
            "      "@ + p.dimmed(f.note),
        ]
}

proof fn lemma_variables(p: Painter, env: Seq<EnvView>)
    ensures
        report::env_rows(p, env) == lines(lines_for_each(env, variable(p))),
    decreases env.len(),
{
    if env.len() == 0 {
        lemma_for_none(variable(p));
        assert(env =~= Seq::<EnvView>::empty());
    } else {
        let front = env.drop_last();
        let f = env.last();
        let row = report::row_text(
            p,
            f.variable + "="@ + report::shortened(f.value, 60),
            "set"@,
            f.status,
        );
        let note = "      "@ + p.dimmed(f.note);
        lemma_variables(p, front);
        lemma_for_each(front, f, variable(p));
        lemma_two_lines(row, note);
        assert(env =~= front.push(f));
        let before = report::env_rows(p, front);
        assert(before + report::line(row) + report::line(note) =~= before + (report::line(row)
            + report::line(note)));
    }
}

/// The worst status of several is one of them, or fine, and none is worse.
pub proof fn the_worst_status_is_told(env: Seq<EnvView>, i: int)
    ensures
        0 <= i < env.len() ==> env[i].status.severity() <= report::worst_of(env).severity(),
        report::worst_of(env) == Status::Fine || exists|k: int|
            0 <= k < env.len() && (#[trigger] env[k]).status == report::worst_of(env),
    decreases env.len(),
{
    if env.len() > 0 {
        let front = env.drop_last();
        the_worst_status_is_told(front, i);
        if report::worst_of(front) != Status::Fine {
            let k = choose|k: int|
                0 <= k < front.len() && (#[trigger] front[k]).status == report::worst_of(front);
            assert(env[k].status == report::worst_of(front));
        }
        assert(env[env.len() - 1] == env.last());
        if 0 <= i < front.len() {
            assert(front[i] == env[i]);
        }
    }
}

/// Every variable that is set is told; that none is, only where everything is
/// asked for.
pub proof fn variables_are_told(p: Painter, env: Seq<EnvView>, options: OptionsView)
    ensures
        env.len() > 0 ==> report::environment_text(p, env, options) == lines(
            seq![heading(p, report::worst_of(env), "Environment"@, options.ascii)]
                + lines_for_each(env, variable(p)) + seq![""@],
        ),
        env.len() == 0 && options.verbose ==> report::environment_text(p, env, options) == lines(
            seq![
                heading(p, Status::Fine, "Environment"@, options.ascii),
                "  no relevant variables set"@,
                ""@,
            ],
        ),
        env.len() == 0 && !options.verbose ==> report::environment_text(p, env, options).len()
            == 0,
{
    let top = heading(p, report::worst_of(env), "Environment"@, options.ascii);
    let middle = lines_for_each(env, variable(p));
    lemma_one_line(top);
    lemma_one_line(""@);
    lemma_variables(p, env);
    lemma_lines_sum(seq![top], middle);
    lemma_lines_sum(seq![top] + middle, seq![""@]);
    lemma_three_lines(
        heading(p, Status::Fine, "Environment"@, options.ascii),
        "  no relevant variables set"@,
        ""@,
    );
}

/// The line for a note.
pub open spec fn noted(p: Painter) -> spec_fn(Seq<char>) -> Seq<Seq<char>> {
    |note: Seq<char>| seq![p.dimmed("•"@) + " "@ + p.dimmed(note)]
}

proof fn lemma_notes(p: Painter, notes: Seq<Seq<char>>)
    ensures
        report::note_lines(p, notes) == lines(lines_for_each(notes, noted(p))),
    decreases notes.len(),
{
    if notes.len() == 0 {
        lemma_for_none(noted(p));
        assert(notes =~= Seq::<Seq<char>>::empty());
    } else {
        let front = notes.drop_last();
        lemma_notes(p, front);
        lemma_for_each(front, notes.last(), noted(p));
        lemma_one_line(p.dimmed("•"@) + " "@ + p.dimmed(notes.last()));
        assert(notes =~= front.push(notes.last()));
    }
}

/// Every note has its line.
pub proof fn notes_are_told(p: Painter, notes: Seq<Seq<char>>)
    ensures
        notes.len() == 0 ==> report::notes_text(p, notes).len() == 0,
        notes.len() > 0 ==> report::notes_text(p, notes) == lines(
            lines_for_each(notes, noted(p)) + seq![""@],
        ),
{
    lemma_notes(p, notes);
    lemma_one_line(""@);
    lemma_lines_sum(lines_for_each(notes, noted(p)), seq![""@]);
}

/// The steps with their numbers, from 1 on.
pub open spec fn numbered(steps: Seq<Seq<char>>) -> Seq<Seq<char>> {
    steps.map(|i: int, step: Seq<char>| "  "@ + text::decimal((i + 1) as nat) + ". "@ + step)
}

proof fn lemma_steps(steps: Seq<Seq<char>>)
    ensures
        report::step_lines(steps) == lines(numbered(steps)),
    decreases steps.len(),
{
    if steps.len() == 0 {
        lemma_no_lines();
        assert(numbered(steps) =~= Seq::<Seq<char>>::empty());
    } else {
        let front = steps.drop_last();
        let last = "  "@ + text::decimal(steps.len()) + ". "@ + steps.last();
        lemma_steps(front);
        assert(numbered(steps) =~= numbered(front).push(last));
        lemma_lines_push(numbered(front), last);
    }
}

/// Every step is told with its number, in their order.
pub proof fn steps_are_numbered(p: Painter, steps: Seq<Seq<char>>)
    ensures
        steps.len() == 0 ==> report::suggestions_text(p, steps).len() == 0,
        steps.len() > 0 ==> report::suggestions_text(p, steps) == lines(
            seq![p.bolded("Suggested next steps"@)] + numbered(steps) + seq![""@],
        ),
{
    let top = p.bolded("Suggested next steps"@);
    lemma_steps(steps);
    lemma_one_line(top);
    lemma_one_line(""@);
    lemma_lines_sum(seq![top], numbered(steps));
    lemma_lines_sum(seq![top] + numbered(steps), seq![""@]);
}

// ---------------------------------------------------------------------------
// The whole page
// ---------------------------------------------------------------------------

/// The last line says what was found: nothing, how many problems, or that the
/// file cannot be diagnosed.
pub proof fn the_last_line_sums_up(p: Painter, a: AnalysisView, ascii: bool)
    ensures
        ({
            let n = a.problems();
            let last = report::summary_text(p, a, ascii);
            &&& a.kind is NotElf ==> last == p.dimmed("why v0.1 cannot diagnose this file"@)
            &&& !(a.kind is NotElf) && n == 0 ==> last == p.tinted(
                Status::Fine,
                report::glyph(Status::Fine, ascii),
            ) + " "@ + p.tinted(Status::Fine, "no problems found"@)
            &&& !(a.kind is NotElf) && 0 < n <= usize::MAX ==> last == p.tinted(
                Status::Fail,
                report::glyph(Status::Fail, ascii),
            ) + " "@ + p.tinted(
                Status::Fail,
                text::decimal(n) + " problem"@ + report::ending(n) + " found"@,
            )
        }),
{
}

/// What is no program is said to be what it is.
pub proof fn other_files_are_told(
    p: Painter,
    a: AnalysisView,
    options: OptionsView,
    family: Family,
    description: Seq<char>,
)
    requires
        a.kind == (KindView::NotElf { description }),
    ensures
        report::report_text(p, a, options, family) == report::head_text(p, a) + lines(
            seq![
                heading(p, Status::Warn, "Not an ELF program"@, options.ascii),
                "  "@ + description,
                ""@,
                p.dimmed(
                    "why v0.1 inspects ELF programs and scripts; other file types are not understood yet."@,
                ),
                ""@,
                report::summary_text(p, a, options.ascii),
            ],
        ),
{
    let first = heading(p, Status::Warn, "Not an ELF program"@, options.ascii);
    let second = "  "@ + description;
    let fourth = p.dimmed(
        "why v0.1 inspects ELF programs and scripts; other file types are not understood yet."@,
    );
    let last = report::summary_text(p, a, options.ascii);
    lemma_four_lines(first, second, ""@, fourth);
    lemma_lines_push(seq![first, second, ""@, fourth], ""@);
    assert(seq![first, second, ""@, fourth].push(""@) =~= seq![first, second, ""@, fourth, ""@]);
    lemma_lines_push(seq![first, second, ""@, fourth, ""@], last);
    assert(seq![first, second, ""@, fourth, ""@].push(last) =~= seq![
        first,
        second,
        ""@,
        fourth,
        ""@,
        last,
    ]);
}

proof fn lemma_sum(a: Seq<char>, b: Seq<char>, c: Seq<char>)
    ensures
        a + (b + c) == a + b + c,
{
    assert(a + (b + c) =~= a + b + c);
}

proof fn lemma_parts(
    s0: Seq<char>,
    s1: Seq<char>,
    s2: Seq<char>,
    s3: Seq<char>,
    s4: Seq<char>,
    s5: Seq<char>,
    s6: Seq<char>,
    s7: Seq<char>,
    s8: Seq<char>,
    s9: Seq<char>,
    s10: Seq<char>,
    s11: Seq<char>,
)
    ensures
        s0 + (s1 + s2 + s3 + s4 + s5 + s6 + s7 + s8 + s9 + s10 + s11) == seq![
            s0,
            s1,
            s2,
            s3,
            s4,
            s5,
            s6,
            s7,
            s8,
            s9,
            s10,
            s11,
        ].flatten(),
{
    let none = Seq::<Seq<char>>::empty();
    let q0 = none.push(s0);
    let q1 = q0.push(s1);
    let q2 = q1.push(s2);
    let q3 = q2.push(s3);
    let q4 = q3.push(s4);
    let q5 = q4.push(s5);
    let q6 = q5.push(s6);
    let q7 = q6.push(s7);
    let q8 = q7.push(s8);
    let q9 = q8.push(s9);
    let q10 = q9.push(s10);
    none.lemma_flatten_push(s0);
    q0.lemma_flatten_push(s1);
    q1.lemma_flatten_push(s2);
    q2.lemma_flatten_push(s3);
    q3.lemma_flatten_push(s4);
    q4.lemma_flatten_push(s5);
    q5.lemma_flatten_push(s6);
    q6.lemma_flatten_push(s7);
    q7.lemma_flatten_push(s8);
    q8.lemma_flatten_push(s9);
    q9.lemma_flatten_push(s10);
    q10.lemma_flatten_push(s11);
    assert(q10.push(s11) =~= seq![s0, s1, s2, s3, s4, s5, s6, s7, s8, s9, s10, s11]);
    assert(none.flatten() + s0 =~= s0);
    let t1 = s1;
    let t2 = t1 + s2;
    let t3 = t2 + s3;
    let t4 = t3 + s4;
    let t5 = t4 + s5;
    let t6 = t5 + s6;
    let t7 = t6 + s7;
    let t8 = t7 + s8;
    let t9 = t8 + s9;
    let t10 = t9 + s10;
    lemma_sum(s0, t1, s2);
    lemma_sum(s0, t2, s3);
    lemma_sum(s0, t3, s4);
    lemma_sum(s0, t4, s5);
    lemma_sum(s0, t5, s6);
    lemma_sum(s0, t6, s7);
    lemma_sum(s0, t7, s8);
    lemma_sum(s0, t8, s9);
    lemma_sum(s0, t9, s10);
    lemma_sum(s0, t10, s11);
}

/// The sections of a page in their order: the file type, the permission, the
/// architecture, the interpreter, the libraries, the symbols, the versions, the
/// environment, the notes, the steps and the last line.
#[verifier::rlimit(60)]
pub proof fn sections_come_in_order(
    p: Painter,
    a: AnalysisView,
    options: OptionsView,
    family: Family,
)
    requires
        !(a.kind is NotElf),
    ensures
        report::report_text(p, a, options, family) == seq![
            report::head_text(p, a),
            report::file_type_text(p, a, options.ascii),
            report::permissions_text(p, a.permissions, options.ascii),
            report::arch_text(p, a.arch, options.ascii),
            report::interpreter_text(p, a, options.ascii),
            report::libraries_text(p, a, options),
            report::symbols_text(p, a, options),
            report::versions_text(p, a, options),
            report::environment_text(p, a.env, options),
            report::notes_text(p, a.notes),
            report::suggestions_text(p, report::steps_of(a, family)),
            report::summary_text(p, a, options.ascii).push('\n'),
        ].flatten(),
{
    lemma_line(report::summary_text(p, a, options.ascii));
    lemma_parts(
        report::head_text(p, a),
        report::file_type_text(p, a, options.ascii),
        report::permissions_text(p, a.permissions, options.ascii),
        report::arch_text(p, a.arch, options.ascii),
        report::interpreter_text(p, a, options.ascii),
        report::libraries_text(p, a, options),
        report::symbols_text(p, a, options),
        report::versions_text(p, a, options),
        report::environment_text(p, a.env, options),
        report::notes_text(p, a.notes),
        report::suggestions_text(p, report::steps_of(a, family)),
        report::line(report::summary_text(p, a, options.ascii)),
    );
}

} // verus!
