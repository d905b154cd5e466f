//! Renders an [`Analysis`] as something a human wants to read.
//!
//! The whole point of `why` is this module. Linux already has excellent tools
//! that emit raw diagnostics; the missing layer is a short, opinionated
//! explanation of what they mean.

use vstd::prelude::*;
use vstd::slice::slice_subrange;
use crate::analyze;
use crate::analyze::{
    Analysis, AnalysisView, ArchFinding, ArchView, EnvFinding, EnvView, InterpreterProblem,
    InterpreterView, KindView, LibResolution, LibraryFinding, LibraryView, PermissionFinding,
    PermissionView, ProblemView, ResolutionView, Status, TargetKind, UnresolvedSymbol,
    UnresolvedView, VersionProblem, VersionView,
};
use crate::cli::{Options, OptionsView};
use crate::distro;
use crate::distro::Distro;
use crate::elf;
use crate::elf::{ElfType, ElfView, VersionNeed, VersionNeedView};
use crate::text;

verus! {

/// Column where the right-hand status/value is aligned.
pub const VALUE_COLUMN: usize = 54;

/// How many unresolved symbols are listed unless all are asked for.
pub const SYMBOL_LIMIT: usize = 20;

/// How much of the value of a variable is shown.
pub const VALUE_LIMIT: usize = 60;

// ---------------------------------------------------------------------------
// Colours
// ---------------------------------------------------------------------------

/// Puts colours on text, where they are wanted.
#[derive(Debug, Clone, Copy, PartialEq, Eq, Structural)]
pub struct Painter {
    pub color: bool,
}

impl Painter {
    /// Text with an ANSI code around it.
    pub open spec fn painted(self, code: Seq<char>, s: Seq<char>) -> Seq<char> {
        if self.color {
            "\x1b["@ + code + "m"@ + s + "\x1b[0m"@
        } else {
            s
        }
    }

    /// Text in bold.
    pub open spec fn bolded(self, s: Seq<char>) -> Seq<char> {
        self.painted("1"@, s)
    }

    /// Text that stands back.
    pub open spec fn dimmed(self, s: Seq<char>) -> Seq<char> {
        self.painted("2"@, s)
    }

    /// Text in the colour of a status.
    pub open spec fn tinted(self, status: Status, s: Seq<char>) -> Seq<char> {
        match status {
            Status::Fine => self.painted("32"@, s),
            Status::Warn => self.painted("33"@, s),
            Status::Fail => self.painted("31"@, s),
            Status::Info => self.painted("36"@, s),
        }
    }

    fn wrap(&self, code: &str, s: &str) -> (r: String)
        ensures
            r@ == self.painted(code@, s@),
    {
        let mut out: String = String::new();
        if self.color {
            out.append("\x1b[");
            out.append(code);
            out.append("m");
            out.append(s);
            out.append("\x1b[0m");
        } else {
            out.append(s);
        }
        assert(out@ =~= self.painted(code@, s@));
        out
    }

    fn bold(&self, s: &str) -> (r: String)
        ensures
            r@ == self.bolded(s@),
    {
        self.wrap("1", s)
    }

    fn dim(&self, s: &str) -> (r: String)
        ensures
            r@ == self.dimmed(s@),
    {
        self.wrap("2", s)
    }

    fn colorize(&self, status: Status, s: &str) -> (r: String)
        ensures
            r@ == self.tinted(status, s@),
    {
        match status {
            Status::Fine => self.wrap("32", s),
            Status::Warn => self.wrap("33", s),
            Status::Fail => self.wrap("31", s),
            Status::Info => self.wrap("36", s),
        }
    }
}

// ---------------------------------------------------------------------------
// Lines
// ---------------------------------------------------------------------------

/// A line.
pub open spec fn line(s: Seq<char>) -> Seq<char> {
    s + "\n"@
}

/// Appends a line.
fn push_line(out: &mut String, s: &str)
    ensures
        final(out)@ == old(out)@ + line(s@),
{
    out.append(s);
    out.append("\n");
    assert(out@ =~= old(out)@ + line(s@));
}

/// Appends a line that starts with some text.
fn push_two(out: &mut String, a: &str, b: &str)
    ensures
        final(out)@ == old(out)@ + line(a@ + b@),
{
    out.append(a);
    out.append(b);
    out.append("\n");
    assert(out@ =~= old(out)@ + line(a@ + b@));
}

/// The sign of a status.
pub open spec fn glyph(status: Status, ascii: bool) -> Seq<char> {
    if ascii {
        match status {
            Status::Fine => "[ok]"@,
            Status::Warn => "[!]"@,
            Status::Fail => "[x]"@,
            Status::Info => "[-]"@,
        }
    } else {
        match status {
            Status::Fine => "✓"@,
            Status::Warn => "⚠"@,
            Status::Fail => "✗"@,
            Status::Info => "•"@,
        }
    }
}

fn mark(painter: &Painter, status: Status, ascii: bool) -> (r: String)
    ensures
        r@ == painter.tinted(status, glyph(status, ascii)),
{
    let sign: &str = if ascii {
        match status {
            Status::Fine => "[ok]",
            Status::Warn => "[!]",
            Status::Fail => "[x]",
            Status::Info => "[-]",
        }
    } else {
        match status {
            Status::Fine => "✓",
            Status::Warn => "⚠",
            Status::Fail => "✗",
            Status::Info => "•",
        }
    };
    painter.colorize(status, sign)
}

/// The title line of a section.
pub open spec fn section_text(p: Painter, status: Status, title: Seq<char>, ascii: bool) -> Seq<
    char,
> {
    line(p.tinted(status, glyph(status, ascii)) + " "@ + p.bolded(title))
}

fn section(painter: &Painter, status: Status, title: &str, ascii: bool) -> (r: String)
    ensures
        r@ == section_text(*painter, status, title@, ascii),
{
    let mut out: String = mark(painter, status, ascii);
    let title: String = painter.bold(title);
    out.append(" ");
    out.append(title.as_str());
    out.append("\n");
    out
}

/// Some spaces.
pub open spec fn spaces(n: nat) -> Seq<char> {
    Seq::new(n, |i: int| ' ')
}

/// The room between the two sides of a row: as much as aligns the right one,
/// and two columns at least.
pub open spec fn gap(left: nat, right: nat) -> nat {
    if left + right + 2 <= VALUE_COLUMN {
        (VALUE_COLUMN - left - right) as nat
    } else {
        2
    }
}

/// A `left          right` row with the right side aligned to
/// [`VALUE_COLUMN`].
pub open spec fn row_text(p: Painter, left: Seq<char>, right: Seq<char>, status: Status) -> Seq<
    char,
> {
    "  "@ + left + spaces(gap(left.len(), right.len())) + p.tinted(status, right)
}

fn row(painter: &Painter, left: &str, right: &str, status: Status) -> (r: String)
    ensures
        r@ == row_text(*painter, left@, right@, status),
{
    let width: usize = left.unicode_len().saturating_add(right.unicode_len());
    let pad: usize = if width <= VALUE_COLUMN - 2 {
        VALUE_COLUMN - width
    } else {
        2
    };
    assert(pad == gap(left@.len(), right@.len()));
    let mut out: String = String::new();
    out.append("  ");
    out.append(left);
    let ghost before = out@;
    let mut i: usize = 0;
    assert(before + spaces(0) =~= before);
    while i < pad
        invariant
            i <= pad,
            out@ == before + spaces(i as nat),
        decreases pad - i,
    {
        out.push(' ');
        i += 1;
        assert(out@ =~= before + spaces(i as nat));
    }
    let value: String = painter.colorize(status, right);
    out.append(value.as_str());
    assert(out@ =~= row_text(*painter, left@, right@, status));
    out
}

/// Appends a row as a line.
fn push_row(out: &mut String, painter: &Painter, left: &str, right: &str, status: Status)
    ensures
        final(out)@ == old(out)@ + line(row_text(*painter, left@, right@, status)),
{
    let s: String = row(painter, left, right, status);
    push_line(out, s.as_str());
}

/// The ending of a plural.
pub open spec fn ending(count: nat) -> Seq<char> {
    if count == 1 {
        ""@
    } else {
        "s"@
    }
}

fn plural(count: usize) -> (r: &'static str)
    ensures
        r@ == ending(count as nat),
{
    if count == 1 {
        ""
    } else {
        "s"
    }
}

/// A text cut down to so many characters, the last of which then tells so.
pub open spec fn shortened(s: Seq<char>, max: nat) -> Seq<char> {
    if s.len() <= max {
        s
    } else if max == 0 {
        "…"@
    } else {
        s.take(max - 1) + "…"@
    }
}

/// Cuts a text down to `max` characters.
pub fn truncate(value: &str, max: usize) -> (r: String)
    ensures
        r@ == shortened(value@, max as nat),
{
    let chars: Vec<char> = text::chars_of(value);
    if chars.len() <= max {
        return value.to_owned();
    }
    let keep: usize = max.saturating_sub(1);
    let front: &[char] = slice_subrange(chars.as_slice(), 0, keep);
    assert(front@ =~= value@.take(keep as int));
    let mut out: String = text::string_of(front);
    out.append("…");
    assert(out@ =~= shortened(value@, max as nat));
    out
}

/// A text that is cut down is as short as asked for, where anything may be
/// shown at all, and one that is short enough stays as it is.
pub proof fn truncation_keeps_it_short(s: Seq<char>, max: nat)
    ensures
        max > 0 ==> shortened(s, max).len() <= max,
        s.len() <= max ==> shortened(s, max) == s,
        s.len() > max && max > 0 ==> shortened(s, max).len() == max && shortened(s, max).take(
            max - 1,
        ) == s.take(max - 1),
{
    reveal_strlit("…");
    if s.len() > max && max > 0 {
        assert(shortened(s, max).take(max - 1) =~= s.take(max - 1));
    }
}

/// Appends a number.
fn push_count(out: &mut String, n: usize)
    ensures
        final(out)@ == old(out)@ + text::decimal(n as nat),
{
    text::push_decimal(out, n as u64);
}

// ---------------------------------------------------------------------------
// The head of the report
// ---------------------------------------------------------------------------

/// What the report says that the target is.
pub open spec fn kind_line(kind: KindView) -> Seq<char> {
    match kind {
        KindView::Elf(object) => object.kind_text() + " · "@ + text::decimal(
            object.class.width() as nat,
        ) + "-bit "@ + elf::machine_text(object.machine),
        KindView::Script { .. } => "script"@,
        KindView::NotElf { description } => description,
    }
}

/// The head of the report.
pub open spec fn head_text(p: Painter, a: AnalysisView) -> Seq<char> {
    line(p.bolded("WHY DOES THIS PROGRAM NOT WORK?"@)) + line(""@) + line(
        "  "@ + p.tinted(Status::Info, a.path),
    ) + line("  "@ + p.dimmed(kind_line(a.kind))) + line(""@)
}

/// Says what the target is.
fn name_kind(kind: &TargetKind) -> (r: String)
    ensures
        r@ == kind_line(kind.deep_view()),
{
    let mut out: String = String::new();
    match kind {
        TargetKind::Elf(object) => {
            out.append(object.kind());
            out.append(" · ");
            text::push_decimal(&mut out, object.class.bits() as u64);
            out.append("-bit ");
            out.append(elf::machine_name(object.machine));
        },
        TargetKind::Script { .. } => {
            out.append("script");
        },
        TargetKind::NotElf { description } => {
            out.append(description.as_str());
        },
    }
    assert(out@ =~= kind_line(kind.deep_view()));
    out
}

fn render_head(analysis: &Analysis, painter: &Painter) -> (r: String)
    ensures
        r@ == head_text(*painter, analysis.deep_view()),
{
    let mut out: String = painter.bold("WHY DOES THIS PROGRAM NOT WORK?");
    out.append("\n");
    push_line(&mut out, "");
    let path: String = painter.colorize(Status::Info, analysis.path.as_str());
    push_two(&mut out, "  ", path.as_str());
    let kind: String = name_kind(&analysis.kind);
    let kind: String = painter.dim(kind.as_str());
    push_two(&mut out, "  ", kind.as_str());
    push_line(&mut out, "");
    out
}

// ---------------------------------------------------------------------------
// The file itself
// ---------------------------------------------------------------------------

/// What is said of a file that is no program.
pub open spec fn file_type_text(p: Painter, a: AnalysisView, ascii: bool) -> Seq<char> {
    match a.not_a_program {
        None => Seq::empty(),
        Some(reason) => section_text(p, Status::Fail, "File type"@, ascii) + line(
            row_text(p, a.path, "not runnable"@, Status::Fail),
        ) + line("      "@ + reason) + line(""@),
    }
}

fn render_file_type(analysis: &Analysis, ascii: bool, painter: &Painter) -> (r: String)
    ensures
        r@ == file_type_text(*painter, analysis.deep_view(), ascii),
{
    match &analysis.not_a_program {
        None => String::new(),
        Some(reason) => {
            let mut out: String = section(painter, Status::Fail, "File type", ascii);
            push_row(&mut out, painter, analysis.path.as_str(), "not runnable", Status::Fail);
            push_two(&mut out, "      ", reason.as_str());
            push_line(&mut out, "");
            out
        },
    }
}

/// What is said of the permission bits.
pub open spec fn mode_text(f: PermissionView) -> Seq<char> {
    if f.executable {
        "executable"@
    } else {
        "not executable (mode "@ + text::octal4(f.mode as nat) + ")"@
    }
}

/// What is said of the permissions.
pub open spec fn permissions_text(p: Painter, finding: Option<PermissionView>, ascii: bool) -> Seq<
    char,
> {
    match finding {
        None => Seq::empty(),
        Some(f) => {
            let status = if f.executable {
                Status::Fine
            } else {
                Status::Fail
            };
            section_text(p, status, "Executable permission"@, ascii) + line(
                row_text(p, f.path, mode_text(f), status),
            ) + line(""@)
        },
    }
}

fn render_permissions(
    finding: &Option<PermissionFinding>,
    ascii: bool,
    painter: &Painter,
) -> (r: String)
    ensures
        r@ == permissions_text(*painter, finding.deep_view(), ascii),
{
    match finding {
        None => String::new(),
        Some(f) => {
            let status: Status = if f.executable {
                Status::Fine
            } else {
                Status::Fail
            };
            let mut out: String = section(painter, status, "Executable permission", ascii);
            let mut value: String = String::new();
            if f.executable {
                value.append("executable");
            } else {
                value.append("not executable (mode ");
                text::push_octal4(&mut value, f.mode);
                value.append(")");
            }
            assert(value@ =~= mode_text(f.deep_view()));
            push_row(&mut out, painter, f.path.as_str(), value.as_str(), status);
            push_line(&mut out, "");
            out
        },
    }
}

/// What is said of the architecture: how bad it is, and how it compares with
/// the host. A different machine is not automatically broken: 32-bit i386 runs
/// on x86-64, it just needs the compatibility loader and libraries.
pub open spec fn comparison(f: ArchView) -> (Status, Seq<char>) {
    match f.host_name {
        None => (Status::Info, "host architecture unknown"@),
        Some(host) => if f.exact {
            (
                Status::Fine,
                "matches this system ("@ + host + ", "@ + text::decimal(f.class.width() as nat)
                    + "-bit)"@,
            )
        } else if f.compatible {
            (Status::Warn, "compatible with "@ + host + " (needs multilib support)"@)
        } else {
            (Status::Fail, "this system is "@ + host)
        },
    }
}

/// What is said of the architecture.
pub open spec fn arch_text(p: Painter, finding: Option<ArchView>, ascii: bool) -> Seq<char> {
    match finding {
        None => Seq::empty(),
        Some(f) => section_text(p, comparison(f).0, "Architecture"@, ascii) + line(
            row_text(
                p,
                f.name + ", "@ + text::decimal(f.class.width() as nat) + "-bit"@,
                comparison(f).1,
                comparison(f).0,
            ),
        ) + line(""@),
    }
}

/// Compares the architecture with the host.
fn compare_arch(f: &ArchFinding) -> (r: (Status, String))
    ensures
        (r.0, r.1@) == comparison(f.deep_view()),
{
    let bits: u64 = f.class.bits() as u64;
    let mut value: String = String::new();
    let status: Status = match f.host_name {
        None => {
            value.append("host architecture unknown");
            Status::Info
        },
        Some(host) => {
            if f.exact {
                value.append("matches this system (");
                value.append(host);
                value.append(", ");
                text::push_decimal(&mut value, bits);
                value.append("-bit)");
                Status::Fine
            } else if f.compatible {
                value.append("compatible with ");
                value.append(host);
                value.append(" (needs multilib support)");
                Status::Warn
            } else {
                value.append("this system is ");
                value.append(host);
                Status::Fail
            }
        },
    };
    assert(value@ =~= comparison(f.deep_view()).1);
    (status, value)
}

fn render_arch(finding: &Option<ArchFinding>, ascii: bool, painter: &Painter) -> (r: String)
    ensures
        r@ == arch_text(*painter, finding.deep_view(), ascii),
{
    match finding {
        None => String::new(),
        Some(f) => {
            let (status, value): (Status, String) = compare_arch(f);
            let mut out: String = section(painter, status, "Architecture", ascii);
            let mut label: String = String::new();
            label.append(f.name);
            label.append(", ");
            text::push_decimal(&mut label, f.class.bits() as u64);
            label.append("-bit");
            assert(label@ =~= f.name@ + ", "@ + text::decimal(f.class.width() as nat) + "-bit"@);
            push_row(&mut out, painter, label.as_str(), value.as_str(), status);
            push_line(&mut out, "");
            out
        },
    }
}

/// What is said where an object names no interpreter.
pub open spec fn no_interpreter(object: ElfView) -> Seq<char> {
    match object.etype {
        ElfType::Shared => "not applicable (shared library)"@,
        ElfType::Relocatable => "not applicable (relocatable object)"@,
        ElfType::Core => "not applicable (core dump)"@,
        _ => "not used (statically linked)"@,
    }
}

/// What is said of an interpreter, in short.
pub open spec fn interpreter_value(i: InterpreterView) -> Seq<char> {
    if !i.exists {
        "MISSING"@
    } else if !i.executable {
        "not executable"@
    } else {
        match i.problem {
            Some(ProblemView::WrongArchitecture { .. }) => "wrong architecture"@,
            Some(ProblemView::NotLoadable(_)) => "not a valid loader"@,
            None => "present"@,
        }
    }
}

/// What is said of an interpreter's problem.
pub open spec fn problem_text(problem: Option<ProblemView>) -> Seq<char> {
    match problem {
        Some(ProblemView::WrongArchitecture { found, wanted }) => line(
            "      built for "@ + found + ", but the program is "@ + wanted,
        ),
        Some(ProblemView::NotLoadable(reason)) => line("      "@ + reason),
        None => Seq::empty(),
    }
}

/// What is said of the interpreter.
pub open spec fn interpreter_text(p: Painter, a: AnalysisView, ascii: bool) -> Seq<char> {
    let title = if a.kind is Script {
        "Interpreter"@
    } else {
        "ELF interpreter"@
    };
    match a.interpreter {
        None => match a.kind {
            KindView::Elf(object) => section_text(p, Status::Info, title, ascii) + line(
                "  "@ + no_interpreter(object),
            ) + line(""@),
            _ => Seq::empty(),
        },
        Some(i) => {
            let status = if i.works() {
                Status::Fine
            } else {
                Status::Fail
            };
            section_text(p, status, title, ascii) + line(
                row_text(p, i.path, interpreter_value(i), status),
            ) + problem_text(i.problem) + line(""@)
        },
    }
}

/// Says what there is to say of an interpreter's problem.
fn render_problem(out: &mut String, problem: &Option<InterpreterProblem>)
    ensures
        final(out)@ == old(out)@ + problem_text(problem.deep_view()),
{
    match problem {
        Some(InterpreterProblem::WrongArchitecture { found, wanted }) => {
            let mut detail: String = String::new();
            detail.append("      built for ");
            detail.append(found);
            detail.append(", but the program is ");
            detail.append(wanted);
            assert(detail@ =~= "      built for "@ + found@ + ", but the program is "@ + wanted@);
            push_line(out, detail.as_str());
        },
        Some(InterpreterProblem::NotLoadable(reason)) => {
            push_two(out, "      ", reason.as_str());
        },
        None => {},
    }
    assert(out@ =~= old(out)@ + problem_text(problem.deep_view()));
}

fn render_interpreter(analysis: &Analysis, ascii: bool, painter: &Painter) -> (r: String)
    ensures
        r@ == interpreter_text(*painter, analysis.deep_view(), ascii),
{
    let title: &str = match &analysis.kind {
        TargetKind::Script { .. } => "Interpreter",
        _ => "ELF interpreter",
    };
    match &analysis.interpreter {
        None => match &analysis.kind {
            TargetKind::Elf(object) => {
                let detail: &str = match object.etype {
                    ElfType::Shared => "not applicable (shared library)",
                    ElfType::Relocatable => "not applicable (relocatable object)",
                    ElfType::Core => "not applicable (core dump)",
                    _ => "not used (statically linked)",
                };
                let mut out: String = section(painter, Status::Info, title, ascii);
                push_two(&mut out, "  ", detail);
                push_line(&mut out, "");
                out
            },
            _ => String::new(),
        },
        Some(i) => {
            // A loader that is not there, has no execute bit, or is of the
            // wrong class or machine cannot start anything.
            let (status, value): (Status, &str) = if !i.exists {
                (Status::Fail, "MISSING")
            } else if !i.executable {
                (Status::Fail, "not executable")
            } else {
                match &i.problem {
                    Some(InterpreterProblem::WrongArchitecture { .. }) => (
                        Status::Fail,
                        "wrong architecture",
                    ),
                    Some(InterpreterProblem::NotLoadable(_)) => (
                        Status::Fail,
                        "not a valid loader",
                    ),
                    None => (Status::Fine, "present"),
                }
            };
            let mut out: String = section(painter, status, title, ascii);
            push_row(&mut out, painter, i.path.as_str(), value, status);
            render_problem(&mut out, &i.problem);
            push_line(&mut out, "");
            out
        },
    }
}

// ---------------------------------------------------------------------------
// Libraries
// ---------------------------------------------------------------------------

/// Who needs a library.
pub open spec fn requirers_text(needed_by: Seq<Seq<char>>) -> Seq<char>
    decreases needed_by.len(),
{
    if needed_by.len() == 0 {
        Seq::empty()
    } else {
        requirers_text(needed_by.drop_last()) + line("      required by "@ + needed_by.last())
    }
}

/// What is said of a library that cannot be used.
pub open spec fn unusable_text(p: Painter, library: LibraryView) -> Seq<char> {
    (match library.resolution {
        ResolutionView::WrongArchitecture { path, found, wanted } => line(
            row_text(p, library.name, "WRONG ARCH"@, Status::Fail),
        ) + line(
            "      found "@ + path + " ("@ + found + "), but a "@ + wanted + " object is required"@,
        ),
        ResolutionView::Unusable { path, reason } => line(
            row_text(p, library.name, "UNUSABLE"@, Status::Fail),
        ) + line("      "@ + path + " is "@ + reason),
        _ => line(row_text(p, library.name, "MISSING"@, Status::Fail)),
    }) + requirers_text(library.needed_by)
}

/// What is said of the libraries that cannot be used.
pub open spec fn unusables_text(p: Painter, libraries: Seq<LibraryView>) -> Seq<char>
    decreases libraries.len(),
{
    if libraries.len() == 0 {
        Seq::empty()
    } else {
        unusables_text(p, libraries.drop_last()) + unusable_text(p, libraries.last())
    }
}

/// Where the libraries were found.
pub open spec fn found_text(p: Painter, libraries: Seq<LibraryView>) -> Seq<char>
    decreases libraries.len(),
{
    if libraries.len() == 0 {
        Seq::empty()
    } else {
        found_text(p, libraries.drop_last()) + (match libraries.last().resolution {
            ResolutionView::Found(path) => line(
                row_text(p, libraries.last().name, path, Status::Fine),
            ),
            _ => Seq::empty(),
        })
    }
}

/// What is said of the libraries.
pub open spec fn libraries_text(p: Painter, a: AnalysisView, options: OptionsView) -> Seq<char> {
    if !(a.kind is Elf) {
        Seq::empty()
    } else if a.libraries.len() == 0 {
        section_text(p, Status::Info, "Shared libraries"@, options.ascii) + line(
            "  none (statically linked)"@,
        ) + line(""@)
    } else {
        let unusable = analyze::unusable_among(a.libraries);
        section_text(
            p,
            if unusable.len() == 0 {
                Status::Fine
            } else {
                Status::Fail
            },
            "Shared libraries"@,
            options.ascii,
        ) + line(
            "  "@ + text::decimal((a.libraries.len() - unusable.len()) as nat) + " resolved, "@
                + text::decimal(unusable.len()) + " unusable"@,
        ) + unusables_text(p, unusable) + (if options.verbose {
            found_text(p, a.libraries)
        } else {
            Seq::empty()
        }) + line(""@)
    }
}

/// Says who needs a library.
fn render_requirers(out: &mut String, needed_by: &Vec<String>)
    ensures
        final(out)@ == old(out)@ + requirers_text(needed_by.deep_view()),
{
    let ghost all = needed_by.deep_view();
    let ghost before = out@;
    let mut i: usize = 0;
    assert(all.take(0) =~= Seq::<Seq<char>>::empty());
    assert(before + requirers_text(all.take(0)) =~= before);
    while i < needed_by.len()
        invariant
            i <= needed_by@.len(),
            all == needed_by.deep_view(),
            out@ == before + requirers_text(all.take(i as int)),
        decreases needed_by@.len() - i,
    {
        assert(all.take(i + 1).drop_last() =~= all.take(i as int));
        push_two(out, "      required by ", needed_by[i].as_str());
        i += 1;
        assert(out@ =~= before + requirers_text(all.take(i as int)));
    }
    assert(all.take(i as int) =~= all);
}

/// Says what there is to say of a library that cannot be used.
fn render_unusable(out: &mut String, library: &LibraryFinding, painter: &Painter)
    ensures
        final(out)@ == old(out)@ + unusable_text(*painter, library.deep_view()),
{
    let name: &str = library.name.as_str();
    match &library.resolution {
        LibResolution::WrongArchitecture { path, found, wanted } => {
            push_row(out, painter, name, "WRONG ARCH", Status::Fail);
            let mut detail: String = String::new();
            detail.append("      found ");
            detail.append(path.as_str());
            detail.append(" (");
            detail.append(found);
            detail.append("), but a ");
            detail.append(wanted);
            detail.append(" object is required");
            assert(detail@ =~= "      found "@ + path@ + " ("@ + found@ + "), but a "@ + wanted@
                + " object is required"@);
            push_line(out, detail.as_str());
        },
        LibResolution::Unusable { path, reason } => {
            push_row(out, painter, name, "UNUSABLE", Status::Fail);
            let mut detail: String = String::new();
            detail.append("      ");
            detail.append(path.as_str());
            detail.append(" is ");
            detail.append(reason.as_str());
            assert(detail@ =~= "      "@ + path@ + " is "@ + reason@);
            push_line(out, detail.as_str());
        },
        _ => {
            push_row(out, painter, name, "MISSING", Status::Fail);
        },
    }
    render_requirers(out, &library.needed_by);
    assert(out@ =~= old(out)@ + unusable_text(*painter, library.deep_view()));
}

/// Says where the libraries were found.
fn render_found(out: &mut String, libraries: &Vec<LibraryFinding>, painter: &Painter)
    ensures
        final(out)@ == old(out)@ + found_text(*painter, libraries.deep_view()),
{
    let ghost all = libraries.deep_view();
    let ghost before = out@;
    let mut i: usize = 0;
    assert(all.take(0) =~= Seq::<LibraryView>::empty());
    assert(before + found_text(*painter, all.take(0)) =~= before);
    while i < libraries.len()
        invariant
            i <= libraries@.len(),
            all == libraries.deep_view(),
            out@ == before + found_text(*painter, all.take(i as int)),
        decreases libraries@.len() - i,
    {
        assert(all.take(i + 1).drop_last() =~= all.take(i as int));
        assert(all[i as int] == libraries@[i as int].deep_view());
        match &libraries[i].resolution {
            LibResolution::Found(path) => {
                push_row(
                    out,
                    painter,
                    libraries[i].name.as_str(),
                    path.as_str(),
                    Status::Fine,
                );
            },
            _ => {},
        }
        i += 1;
        assert(out@ =~= before + found_text(*painter, all.take(i as int)));
    }
    assert(all.take(i as int) =~= all);
}

/// Says what there is to say of the libraries that cannot be used.
fn render_unusables(out: &mut String, libraries: &Vec<&LibraryFinding>, painter: &Painter)
    ensures
        final(out)@ == old(out)@ + unusables_text(*painter, libraries.deep_view()),
{
    let ghost all = libraries.deep_view();
    let ghost before = out@;
    let mut i: usize = 0;
    assert(all.take(0) =~= Seq::<LibraryView>::empty());
    assert(before + unusables_text(*painter, all.take(0)) =~= before);
    while i < libraries.len()
        invariant
            i <= libraries@.len(),
            all == libraries.deep_view(),
            out@ == before + unusables_text(*painter, all.take(i as int)),
        decreases libraries@.len() - i,
    {
        assert(all.take(i + 1).drop_last() =~= all.take(i as int));
        assert(all[i as int] == libraries@[i as int].deep_view());
        render_unusable(out, libraries[i], painter);
        i += 1;
        assert(out@ =~= before + unusables_text(*painter, all.take(i as int)));
    }
    assert(all.take(i as int) =~= all);
}

/// No more libraries are unusable than there are.
proof fn lemma_unusable_count(libraries: Seq<LibraryView>)
    ensures
        analyze::unusable_among(libraries).len() <= libraries.len(),
    decreases libraries.len(),
{
    if libraries.len() > 0 {
        lemma_unusable_count(libraries.drop_last());
    }
}

fn render_libraries(analysis: &Analysis, options: &Options, painter: &Painter) -> (r: String)
    ensures
        r@ == libraries_text(*painter, analysis.deep_view(), options.deep_view()),
{
    let is_elf: bool = match &analysis.kind {
        TargetKind::Elf(_) => true,
        _ => false,
    };
    if !is_elf {
        return String::new();
    }
    if analysis.libraries.len() == 0 {
        let mut out: String = section(painter, Status::Info, "Shared libraries", options.ascii);
        push_line(&mut out, "  none (statically linked)");
        push_line(&mut out, "");
        return out;
    }
    let unusable: Vec<&LibraryFinding> = analysis.unusable_libraries();
    proof {
        lemma_unusable_count(analysis.deep_view().libraries);
        assert(unusable@.len() == unusable.deep_view().len());
    }
    let status: Status = if unusable.len() == 0 {
        Status::Fine
    } else {
        Status::Fail
    };
    let mut out: String = section(painter, status, "Shared libraries", options.ascii);
    let mut counts: String = "  ".to_owned();
    push_count(&mut counts, analysis.libraries.len() - unusable.len());
    counts.append(" resolved, ");
    push_count(&mut counts, unusable.len());
    counts.append(" unusable");
    push_line(&mut out, counts.as_str());
    render_unusables(&mut out, &unusable, painter);
    if options.verbose {
        render_found(&mut out, &analysis.libraries, painter);
    } else {
        assert(out@ + Seq::<char>::empty() =~= out@);
    }
    push_line(&mut out, "");
    out
}

// ---------------------------------------------------------------------------
// Symbols and versions
// ---------------------------------------------------------------------------

/// A symbol with its version.
pub open spec fn symbol_name(symbol: UnresolvedView) -> Seq<char> {
    match symbol.version {
        Some(version) => symbol.name + "@"@ + version,
        None => symbol.name,
    }
}

fn display_symbol(symbol: &UnresolvedSymbol) -> (r: String)
    ensures
        r@ == symbol_name(symbol.deep_view()),
{
    let mut out: String = symbol.name.clone();
    match &symbol.version {
        Some(version) => {
            out.append("@");
            out.append(version.as_str());
        },
        None => {},
    }
    out
}

/// Some unresolved symbols.
pub open spec fn symbol_rows(p: Painter, symbols: Seq<UnresolvedView>) -> Seq<char>
    decreases symbols.len(),
{
    if symbols.len() == 0 {
        Seq::empty()
    } else {
        symbol_rows(p, symbols.drop_last()) + line(
            row_text(p, symbol_name(symbols.last()), symbols.last().object, Status::Fail),
        )
    }
}

/// How many of some unresolved symbols are listed.
pub open spec fn shown(count: nat, verbose: bool) -> nat {
    if verbose || count <= SYMBOL_LIMIT {
        count
    } else {
        SYMBOL_LIMIT as nat
    }
}

/// What is said of the symbols.
pub open spec fn symbols_text(p: Painter, a: AnalysisView, options: OptionsView) -> Seq<char> {
    match a.kind {
        KindView::Elf(object) => {
            let title = "Symbol dependencies"@;
            let count = a.unresolved.len();
            if !object.has_dynamic {
                section_text(p, Status::Info, title, options.ascii) + line(
                    "  not applicable (statically linked)"@,
                ) + line(""@)
            } else if count == 0 {
                section_text(p, Status::Fine, title, options.ascii) + line(
                    "  every imported symbol is provided"@,
                ) + line(""@)
            } else {
                section_text(p, Status::Fail, title, options.ascii) + line(
                    "  "@ + text::decimal(count) + " unresolved symbol"@ + ending(count),
                ) + symbol_rows(p, a.unresolved.take(shown(count, options.verbose) as int)) + (
                if count > shown(count, options.verbose) {
                    line(
                        "  … and "@ + text::decimal(
                            (count - shown(count, options.verbose)) as nat,
                        ) + " more (use --verbose)"@,
                    )
                } else {
                    Seq::empty()
                }) + line(""@)
            }
        },
        _ => Seq::empty(),
    }
}

/// Lists some unresolved symbols.
fn render_symbol_rows(
    out: &mut String,
    symbols: &Vec<UnresolvedSymbol>,
    n: usize,
    painter: &Painter,
)
    requires
        n <= symbols@.len(),
    ensures
        final(out)@ == old(out)@ + symbol_rows(*painter, symbols.deep_view().take(n as int)),
{
    let ghost all = symbols.deep_view();
    let ghost before = out@;
    let mut i: usize = 0;
    assert(all.take(0) =~= Seq::<UnresolvedView>::empty());
    assert(before + symbol_rows(*painter, all.take(0)) =~= before);
    while i < n
        invariant
            i <= n <= symbols@.len(),
            all == symbols.deep_view(),
            out@ == before + symbol_rows(*painter, all.take(i as int)),
        decreases n - i,
    {
        assert(all.take(i + 1).drop_last() =~= all.take(i as int));
        assert(all[i as int] == symbols@[i as int].deep_view());
        let name: String = display_symbol(&symbols[i]);
        push_row(out, painter, name.as_str(), symbols[i].object.as_str(), Status::Fail);
        i += 1;
        assert(out@ =~= before + symbol_rows(*painter, all.take(i as int)));
    }
}

fn render_symbols(analysis: &Analysis, options: &Options, painter: &Painter) -> (r: String)
    ensures
        r@ == symbols_text(*painter, analysis.deep_view(), options.deep_view()),
{
    let has_dynamic: bool = match &analysis.kind {
        TargetKind::Elf(object) => object.has_dynamic,
        _ => {
            return String::new();
        },
    };
    if !has_dynamic {
        let mut out: String = section(
            painter,
            Status::Info,
            "Symbol dependencies",
            options.ascii,
        );
        push_line(&mut out, "  not applicable (statically linked)");
        push_line(&mut out, "");
        return out;
    }
    let count: usize = analysis.unresolved.len();
    if count == 0 {
        let mut out: String = section(
            painter,
            Status::Fine,
            "Symbol dependencies",
            options.ascii,
        );
        push_line(&mut out, "  every imported symbol is provided");
        push_line(&mut out, "");
        return out;
    }
    let mut out: String = section(painter, Status::Fail, "Symbol dependencies", options.ascii);
    let mut total: String = "  ".to_owned();
    push_count(&mut total, count);
    total.append(" unresolved symbol");
    total.append(plural(count));
    push_line(&mut out, total.as_str());
    let limit: usize = if options.verbose || count <= SYMBOL_LIMIT {
        count
    } else {
        SYMBOL_LIMIT
    };
    render_symbol_rows(&mut out, &analysis.unresolved, limit, painter);
    if count > limit {
        let mut more: String = "  … and ".to_owned();
        push_count(&mut more, count - limit);
        more.append(" more (use --verbose)");
        push_line(&mut out, more.as_str());
    } else {
        assert(out@ + Seq::<char>::empty() =~= out@);
    }
    push_line(&mut out, "");
    out
}

/// What is said of a version problem.
pub open spec fn version_text(p: Painter, problem: VersionView) -> Seq<char> {
    line(row_text(p, problem.library, "needs "@ + problem.required, Status::Fail)) + line(
        "      required by "@ + problem.object + "; "@ + (match problem.library_path {
            Some(path) => path,
            None => "the system"@,
        }) + " provides "@ + (match problem.best_provided {
            Some(version) => version,
            None => "an older version"@,
        }),
    )
}

/// What is said of version problems.
pub open spec fn version_rows(p: Painter, problems: Seq<VersionView>) -> Seq<char>
    decreases problems.len(),
{
    if problems.len() == 0 {
        Seq::empty()
    } else {
        version_rows(p, problems.drop_last()) + version_text(p, problems.last())
    }
}

/// How many versions an object needs.
pub open spec fn version_count(needs: Seq<VersionNeedView>) -> nat
    decreases needs.len(),
{
    if needs.len() == 0 {
        0
    } else {
        version_count(needs.drop_last()) + needs.last().versions.len()
    }
}

/// A number as far as it can be counted.
pub open spec fn counted(n: nat) -> nat {
    if n <= usize::MAX {
        n
    } else {
        usize::MAX as nat
    }
}

/// What is said of the versions.
pub open spec fn versions_text(p: Painter, a: AnalysisView, options: OptionsView) -> Seq<char> {
    match a.kind {
        KindView::Elf(object) => if a.version_problems.len() > 0 {
            section_text(p, Status::Fail, "Library versions"@, options.ascii) + version_rows(
                p,
                a.version_problems,
            ) + line(""@)
        } else if options.verbose && object.version_needs.len() > 0 {
            section_text(p, Status::Fine, "Library versions"@, options.ascii) + line(
                "  "@ + text::decimal(counted(version_count(object.version_needs)))
                    + " symbol version requirements satisfied"@,
            ) + line(""@)
        } else {
            Seq::empty()
        },
        _ => Seq::empty(),
    }
}

fn render_version_problem(out: &mut String, problem: &VersionProblem, painter: &Painter)
    ensures
        final(out)@ == old(out)@ + version_text(*painter, problem.deep_view()),
{
    let mut needs: String = "needs ".to_owned();
    needs.append(problem.required.as_str());
    push_row(out, painter, problem.library.as_str(), needs.as_str(), Status::Fail);
    let mut detail: String = "      required by ".to_owned();
    detail.append(problem.object.as_str());
    detail.append("; ");
    match &problem.library_path {
        Some(path) => {
            detail.append(path.as_str());
        },
        None => {
            detail.append("the system");
        },
    }
    detail.append(" provides ");
    match &problem.best_provided {
        Some(version) => {
            detail.append(version.as_str());
        },
        None => {
            detail.append("an older version");
        },
    }
    push_line(out, detail.as_str());
    assert(out@ =~= old(out)@ + version_text(*painter, problem.deep_view()));
}

/// Says what there is to say of version problems.
fn render_version_rows(out: &mut String, problems: &Vec<VersionProblem>, painter: &Painter)
    ensures
        final(out)@ == old(out)@ + version_rows(*painter, problems.deep_view()),
{
    let ghost all = problems.deep_view();
    let ghost before = out@;
    let mut i: usize = 0;
    assert(all.take(0) =~= Seq::<VersionView>::empty());
    assert(before + version_rows(*painter, all.take(0)) =~= before);
    while i < problems.len()
        invariant
            i <= problems@.len(),
            all == problems.deep_view(),
            out@ == before + version_rows(*painter, all.take(i as int)),
        decreases problems@.len() - i,
    {
        assert(all.take(i + 1).drop_last() =~= all.take(i as int));
        assert(all[i as int] == problems@[i as int].deep_view());
        render_version_problem(out, &problems[i], painter);
        i += 1;
        assert(out@ =~= before + version_rows(*painter, all.take(i as int)));
    }
    assert(all.take(i as int) =~= all);
}

/// Counts the versions that an object needs.
fn count_versions(needs: &Vec<VersionNeed>) -> (r: usize)
    ensures
        r == counted(version_count(needs.deep_view())),
{
    let ghost all = needs.deep_view();
    let mut total: usize = 0;
    let mut i: usize = 0;
    assert(all.take(0) =~= Seq::<VersionNeedView>::empty());
    while i < needs.len()
        invariant
            i <= needs@.len(),
            all == needs.deep_view(),
            total == counted(version_count(all.take(i as int))),
        decreases needs@.len() - i,
    {
        assert(all.take(i + 1).drop_last() =~= all.take(i as int));
        assert(all[i as int] == needs@[i as int].deep_view());
        assert(all[i as int].versions.len() == needs@[i as int].versions@.len());
        total = total.saturating_add(needs[i].versions.len());
        i += 1;
    }
    assert(all.take(i as int) =~= all);
    total
}

fn render_versions(analysis: &Analysis, options: &Options, painter: &Painter) -> (r: String)
    ensures
        r@ == versions_text(*painter, analysis.deep_view(), options.deep_view()),
{
    match &analysis.kind {
        TargetKind::Elf(object) => {
            if analysis.version_problems.len() > 0 {
                let mut out: String = section(
                    painter,
                    Status::Fail,
                    "Library versions",
                    options.ascii,
                );
                render_version_rows(&mut out, &analysis.version_problems, painter);
                push_line(&mut out, "");
                out
            } else if options.verbose && object.version_needs.len() > 0 {
                let mut out: String = section(
                    painter,
                    Status::Fine,
                    "Library versions",
                    options.ascii,
                );
                let mut total: String = "  ".to_owned();
                push_count(&mut total, count_versions(&object.version_needs));
                total.append(" symbol version requirements satisfied");
                push_line(&mut out, total.as_str());
                push_line(&mut out, "");
                out
            } else {
                String::new()
            }
        },
        _ => String::new(),
    }
}

// ---------------------------------------------------------------------------
// Environment and notes
// ---------------------------------------------------------------------------

/// The worst of some findings.
pub open spec fn worst_of(env: Seq<EnvView>) -> Status
    decreases env.len(),
{
    if env.len() == 0 {
        Status::Fine
    } else {
        worst_of(env.drop_last()).worst(env.last().status)
    }
}

/// What is said of variables.
pub open spec fn env_rows(p: Painter, env: Seq<EnvView>) -> Seq<char>
    decreases env.len(),
{
    if env.len() == 0 {
        Seq::empty()
    } else {
        let f = env.last();
        env_rows(p, env.drop_last()) + line(
            row_text(
                p,
                f.variable + "="@ + shortened(f.value, VALUE_LIMIT as nat),
                "set"@,
                f.status,
            ),
        ) + line("      "@ + p.dimmed(f.note))
    }
}

/// What is said of the environment.
pub open spec fn environment_text(p: Painter, env: Seq<EnvView>, options: OptionsView) -> Seq<char> {
    if env.len() > 0 {
        section_text(p, worst_of(env), "Environment"@, options.ascii) + env_rows(p, env) + line(""@)
    } else if options.verbose {
        section_text(p, Status::Fine, "Environment"@, options.ascii) + line(
            "  no relevant variables set"@,
        ) + line(""@)
    } else {
        Seq::empty()
    }
}

/// Says what there is to say of variables.
fn render_env_rows(out: &mut String, env: &Vec<EnvFinding>, painter: &Painter)
    ensures
        final(out)@ == old(out)@ + env_rows(*painter, env.deep_view()),
{
    let ghost all = env.deep_view();
    let ghost before = out@;
    let mut i: usize = 0;
    assert(all.take(0) =~= Seq::<EnvView>::empty());
    assert(before + env_rows(*painter, all.take(0)) =~= before);
    while i < env.len()
        invariant
            i <= env@.len(),
            all == env.deep_view(),
            out@ == before + env_rows(*painter, all.take(i as int)),
        decreases env@.len() - i,
    {
        assert(all.take(i + 1).drop_last() =~= all.take(i as int));
        assert(all[i as int] == env@[i as int].deep_view());
        let mut setting: String = env[i].variable.clone();
        setting.append("=");
        setting.append(truncate(env[i].value.as_str(), VALUE_LIMIT).as_str());
        push_row(out, painter, setting.as_str(), "set", env[i].status);
        let note: String = painter.dim(env[i].note.as_str());
        push_two(out, "      ", note.as_str());
        i += 1;
        assert(out@ =~= before + env_rows(*painter, all.take(i as int)));
    }
    assert(all.take(i as int) =~= all);
}

/// The worst of some findings.
fn worst_status(env: &Vec<EnvFinding>) -> (r: Status)
    ensures
        r == worst_of(env.deep_view()),
{
    let ghost all = env.deep_view();
    let mut status: Status = Status::Fine;
    let mut i: usize = 0;
    assert(all.take(0) =~= Seq::<EnvView>::empty());
    while i < env.len()
        invariant
            i <= env@.len(),
            all == env.deep_view(),
            status == worst_of(all.take(i as int)),
        decreases env@.len() - i,
    {
        assert(all.take(i + 1).drop_last() =~= all.take(i as int));
        assert(all[i as int] == env@[i as int].deep_view());
        status = status.worse(env[i].status);
        i += 1;
    }
    assert(all.take(i as int) =~= all);
    status
}

fn render_environment(env: &Vec<EnvFinding>, options: &Options, painter: &Painter) -> (r: String)
    ensures
        r@ == environment_text(*painter, env.deep_view(), options.deep_view()),
{
    if env.len() > 0 {
        let mut out: String = section(painter, worst_status(env), "Environment", options.ascii);
        render_env_rows(&mut out, env, painter);
        push_line(&mut out, "");
        out
    } else if options.verbose {
        let mut out: String = section(painter, Status::Fine, "Environment", options.ascii);
        push_line(&mut out, "  no relevant variables set");
        push_line(&mut out, "");
        out
    } else {
        String::new()
    }
}

/// Some notes.
pub open spec fn note_lines(p: Painter, notes: Seq<Seq<char>>) -> Seq<char>
    decreases notes.len(),
{
    if notes.len() == 0 {
        Seq::empty()
    } else {
        note_lines(p, notes.drop_last()) + line(p.dimmed("•"@) + " "@ + p.dimmed(notes.last()))
    }
}

/// The notes.
pub open spec fn notes_text(p: Painter, notes: Seq<Seq<char>>) -> Seq<char> {
    if notes.len() == 0 {
        Seq::empty()
    } else {
        note_lines(p, notes) + line(""@)
    }
}

fn render_notes(notes: &Vec<String>, painter: &Painter) -> (r: String)
    ensures
        r@ == notes_text(*painter, notes.deep_view()),
{
    let ghost all = notes.deep_view();
    let mut out: String = String::new();
    let mut i: usize = 0;
    assert(all.take(0) =~= Seq::<Seq<char>>::empty());
    while i < notes.len()
        invariant
            i <= notes@.len(),
            all == notes.deep_view(),
            out@ == note_lines(*painter, all.take(i as int)),
        decreases notes@.len() - i,
    {
        assert(all.take(i + 1).drop_last() =~= all.take(i as int));
        let mut note: String = painter.dim("•");
        note.append(" ");
        note.append(painter.dim(notes[i].as_str()).as_str());
        push_line(&mut out, note.as_str());
        i += 1;
    }
    assert(all.take(i as int) =~= all);
    if notes.len() > 0 {
        push_line(&mut out, "");
    }
    out
}

// ---------------------------------------------------------------------------
// Suggested next steps
// ---------------------------------------------------------------------------

/// With a step more, unless it is there.
pub open spec fn with_step(steps: Seq<Seq<char>>, step: Seq<char>) -> Seq<Seq<char>> {
    if steps.contains(step) {
        steps
    } else {
        steps.push(step)
    }
}

/// One step where the condition holds.
pub open spec fn step_if(condition: bool, step: Seq<char>) -> Seq<Seq<char>> {
    if condition {
        seq![step]
    } else {
        Seq::empty()
    }
}

/// What to do about the file itself.
pub open spec fn file_steps(a: AnalysisView) -> Seq<Seq<char>> {
    step_if(
        a.not_a_program is Some,
        "Point `why` at the program that runs this file (the executable or the loader), not at the object itself"@,
    ) + (match a.permissions {
        Some(f) => step_if(
            !f.executable,
            "Make the file executable: `chmod +x "@ + f.path + "` (currently mode "@
                + text::octal4(f.mode as nat) + ")"@,
        ),
        None => Seq::empty(),
    })
}

/// What to do about a library that is missing.
pub open spec fn install_step(name: Seq<char>, family: distro::Family) -> Seq<char> {
    "Find and install the package that provides "@ + name + " — "@ + distro::hint(family, name)
}

/// With what to do about libraries that are missing.
pub open spec fn with_installs(
    steps: Seq<Seq<char>>,
    missing: Seq<LibraryView>,
    family: distro::Family,
) -> Seq<Seq<char>>
    decreases missing.len(),
{
    if missing.len() == 0 {
        steps
    } else {
        with_step(
            with_installs(steps, missing.drop_last(), family),
            install_step(missing.last().name, family),
        )
    }
}

/// What to do about a library of another architecture.
pub open spec fn rebuild_step(
    name: Seq<char>,
    path: Seq<char>,
    found: Seq<char>,
    wanted: Seq<char>,
) -> Seq<char> {
    name + " ("@ + path + ") is built for "@ + found + ", not "@ + wanted + "; install the "@
        + wanted + " version of the package that provides it"@
}

/// What to do about a library that is no ELF object.
pub open spec fn replace_step(name: Seq<char>, path: Seq<char>, reason: Seq<char>) -> Seq<char> {
    name + " ("@ + path + ") is "@ + reason + "; replace it or remove it from the search path"@
}

/// With what to do about libraries that are there and cannot be used.
pub open spec fn with_repairs(steps: Seq<Seq<char>>, unusable: Seq<LibraryView>) -> Seq<Seq<char>>
    decreases unusable.len(),
{
    if unusable.len() == 0 {
        steps
    } else {
        let before = with_repairs(steps, unusable.drop_last());
        let library = unusable.last();
        match library.resolution {
            ResolutionView::WrongArchitecture { path, found, wanted } => with_step(
                before,
                rebuild_step(library.name, path, found, wanted),
            ),
            ResolutionView::Unusable { path, reason } => with_step(
                before,
                replace_step(library.name, path, reason),
            ),
            _ => before,
        }
    }
}

/// What to do about an interpreter that is not there. A bare name (from
/// `#!/usr/bin/env`) is a `PATH` lookup, not a path.
pub open spec fn missing_interpreter_step(is_script: bool, path: Seq<char>) -> Seq<char> {
    if is_script && !path.contains('/') {
        "The interpreter `"@ + path + "` was not found on PATH; install it or fix PATH"@
    } else if is_script {
        "The interpreter "@ + path
            + " named on line 1 of the script does not exist; install whatever provides it"@
    } else {
        "Install the dynamic loader at "@ + path
            + " (usually shipped with the C library; 32-bit programs need the multilib variant)"@
    }
}

/// What to do about an interpreter that is there and may not be executed.
pub open spec fn locked_interpreter_step(path: Seq<char>) -> Seq<char> {
    "Make the interpreter executable: `chmod +x "@ + path + "`"@
}

/// What to do about an interpreter that cannot load the program.
pub open spec fn wrong_interpreter_step(path: Seq<char>, problem: ProblemView) -> Seq<char> {
    match problem {
        ProblemView::WrongArchitecture { found, wanted } => "The ELF interpreter "@ + path
            + " is built for "@ + found + " but the program is "@ + wanted
            + "; the loader path is wrong (reinstall the program or the C library)"@,
        ProblemView::NotLoadable(reason) => "The ELF interpreter "@ + path
            + " is not a valid loader ("@ + reason
            + "); the loader path is wrong (reinstall the program or the C library)"@,
    }
}

/// What to do about the interpreter.
pub open spec fn interpreter_steps(a: AnalysisView) -> Seq<Seq<char>> {
    match a.interpreter {
        None => Seq::empty(),
        Some(i) => step_if(!i.exists, missing_interpreter_step(a.kind is Script, i.path)) + step_if(
            i.exists && !i.executable,
            locked_interpreter_step(i.path),
        ) + (match i.problem {
            Some(problem) => seq![wrong_interpreter_step(i.path, problem)],
            None => Seq::empty(),
        }),
    }
}

/// What to do about the architecture. For something that is not a program,
/// advice on it is noise.
pub open spec fn arch_steps(a: AnalysisView) -> Seq<Seq<char>> {
    match a.arch {
        None => Seq::empty(),
        Some(f) => if a.not_a_program is Some {
            Seq::empty()
        } else if !f.compatible {
            seq![
                "This program targets "@ + f.name + " but the system is "@ + (match f.host_name {
                    Some(host) => host,
                    None => "unknown"@,
                }) + "; install the matching runtime"@,
            ]
        } else {
            step_if(
                !f.exact,
                "This is a cross-architecture (for example 32-bit) program: it needs the compatibility loader and multilib libraries installed"@,
            )
        },
    }
}

/// `LD_LIBRARY_PATH` is set.
pub open spec fn has_library_path(env: Seq<EnvView>) -> bool {
    exists|i: int| 0 <= i < env.len() && (#[trigger] env[i]).variable == "LD_LIBRARY_PATH"@
}

/// What to do about symbols, versions and the environment.
pub open spec fn other_steps(a: AnalysisView) -> Seq<Seq<char>> {
    step_if(
        a.unresolved.len() > 0,
        "Unresolved symbols usually mean the libraries on disk are older, newer, or partially upgraded — update or reinstall the packages that own them"@,
    ) + step_if(
        a.version_problems.len() > 0,
        "A required symbol version is missing, which is the signature of a partial system upgrade; finish the upgrade and try again"@,
    ) + step_if(
        has_library_path(a.env),
        "Retry with `env -u LD_LIBRARY_PATH` to rule out a stale library override"@,
    )
}

/// What is said where there is nothing to do.
pub const NO_STEP: &'static str =
    "No problem was found in the ELF metadata; the failure is likely at runtime (arguments, configuration, permissions) or in an area `why` does not inspect yet — see TODO";

/// What to do about what was found.
pub open spec fn found_steps(a: AnalysisView, family: distro::Family) -> Seq<Seq<char>> {
    with_repairs(
        with_installs(file_steps(a), analyze::missing_among(a.libraries), family),
        analyze::unusable_among(a.libraries),
    ) + interpreter_steps(a) + arch_steps(a) + other_steps(a)
}

/// What to do next.
pub open spec fn steps_of(a: AnalysisView, family: distro::Family) -> Seq<Seq<char>> {
    if found_steps(a, family).len() == 0 && a.analyzable() {
        seq![NO_STEP@]
    } else {
        found_steps(a, family)
    }
}

/// Appends a step.
fn push_step(steps: &mut Vec<String>, step: String)
    ensures
        final(steps).deep_view() == old(steps).deep_view().push(step@),
{
    let ghost before = steps.deep_view();
    let ghost added = step@;
    steps.push(step);
    assert(steps.deep_view() =~= before.push(added));
}

/// Appends a step where the condition holds.
fn push_step_if(steps: &mut Vec<String>, condition: bool, step: &str)
    ensures
        final(steps).deep_view() == old(steps).deep_view() + step_if(condition, step@),
{
    if condition {
        push_step(steps, step.to_owned());
    }
    assert(steps.deep_view() =~= old(steps).deep_view() + step_if(condition, step@));
}

/// Appends a step unless it is there.
fn push_new_step(steps: &mut Vec<String>, step: String)
    ensures
        final(steps).deep_view() == with_step(old(steps).deep_view(), step@),
{
    if !text::has_text(steps, step.as_str()) {
        push_step(steps, step);
    }
}

/// Says what to do about the file itself.
fn suggest_file(analysis: &Analysis) -> (r: Vec<String>)
    ensures
        r.deep_view() == file_steps(analysis.deep_view()),
{
    let mut steps: Vec<String> = Vec::new();
    assert(steps.deep_view() =~= Seq::<Seq<char>>::empty());
    push_step_if(
        &mut steps,
        analysis.not_a_program.is_some(),
        "Point `why` at the program that runs this file (the executable or the loader), not at the object itself",
    );
    let ghost before = steps.deep_view();
    match &analysis.permissions {
        Some(f) => {
            let mut step: String = "Make the file executable: `chmod +x ".to_owned();
            step.append(f.path.as_str());
            step.append("` (currently mode ");
            text::push_octal4(&mut step, f.mode);
            step.append(")");
            push_step_if(&mut steps, !f.executable, step.as_str());
        },
        None => {
            assert(before + Seq::<Seq<char>>::empty() =~= before);
        },
    }
    assert(steps.deep_view() =~= file_steps(analysis.deep_view()));
    steps
}

/// Says what to do about libraries that are missing.
fn suggest_installs(steps: &mut Vec<String>, missing: &Vec<&LibraryFinding>, distro: &Distro)
    ensures
        final(steps).deep_view() == with_installs(
            old(steps).deep_view(),
            missing.deep_view(),
            distro.family,
        ),
{
    let ghost all = missing.deep_view();
    let ghost before = steps.deep_view();
    let mut i: usize = 0;
    assert(all.take(0) =~= Seq::<LibraryView>::empty());
    while i < missing.len()
        invariant
            i <= missing@.len(),
            all == missing.deep_view(),
            steps.deep_view() == with_installs(before, all.take(i as int), distro.family),
        decreases missing@.len() - i,
    {
        assert(all.take(i + 1).drop_last() =~= all.take(i as int));
        assert(all[i as int] == missing@[i as int].deep_view());
        let name: &str = missing[i].name.as_str();
        let mut step: String = "Find and install the package that provides ".to_owned();
        step.append(name);
        step.append(" — ");
        step.append(distro.search_hint(name).as_str());
        push_new_step(steps, step);
        i += 1;
    }
    assert(all.take(i as int) =~= all);
}

/// Says what to do about libraries that are there and cannot be used.
fn suggest_repairs(steps: &mut Vec<String>, unusable: &Vec<&LibraryFinding>)
    ensures
        final(steps).deep_view() == with_repairs(old(steps).deep_view(), unusable.deep_view()),
{
    let ghost all = unusable.deep_view();
    let ghost before = steps.deep_view();
    let mut i: usize = 0;
    assert(all.take(0) =~= Seq::<LibraryView>::empty());
    while i < unusable.len()
        invariant
            i <= unusable@.len(),
            all == unusable.deep_view(),
            steps.deep_view() == with_repairs(before, all.take(i as int)),
        decreases unusable@.len() - i,
    {
        assert(all.take(i + 1).drop_last() =~= all.take(i as int));
        assert(all[i as int] == unusable@[i as int].deep_view());
        let name: &str = unusable[i].name.as_str();
        match &unusable[i].resolution {
            LibResolution::WrongArchitecture { path, found, wanted } => {
                let mut step: String = name.to_owned();
                step.append(" (");
                step.append(path.as_str());
                step.append(") is built for ");
                step.append(found);
                step.append(", not ");
                step.append(wanted);
                step.append("; install the ");
                step.append(wanted);
                step.append(" version of the package that provides it");
                push_new_step(steps, step);
            },
            LibResolution::Unusable { path, reason } => {
                let mut step: String = name.to_owned();
                step.append(" (");
                step.append(path.as_str());
                step.append(") is ");
                step.append(reason.as_str());
                step.append("; replace it or remove it from the search path");
                push_new_step(steps, step);
            },
            _ => {},
        }
        i += 1;
    }
    assert(all.take(i as int) =~= all);
}

/// Says what to do about an interpreter that is not there.
fn missing_interpreter(is_script: bool, path: &str) -> (r: String)
    ensures
        r@ == missing_interpreter_step(is_script, path@),
{
    let chars: Vec<char> = text::chars_of(path);
    if is_script && !text::has_char(chars.as_slice(), '/') {
        let mut step: String = "The interpreter `".to_owned();
        step.append(path);
        step.append("` was not found on PATH; install it or fix PATH");
        step
    } else if is_script {
        let mut step: String = "The interpreter ".to_owned();
        step.append(path);
        step.append(
            " named on line 1 of the script does not exist; install whatever provides it",
        );
        step
    } else {
        let mut step: String = "Install the dynamic loader at ".to_owned();
        step.append(path);
        step.append(
            " (usually shipped with the C library; 32-bit programs need the multilib variant)",
        );
        step
    }
}

/// Says what to do about an interpreter that may not be executed.
fn locked_interpreter(path: &str) -> (r: String)
    ensures
        r@ == locked_interpreter_step(path@),
{
    let mut step: String = "Make the interpreter executable: `chmod +x ".to_owned();
    step.append(path);
    step.append("`");
    step
}

/// Says what to do about an interpreter that cannot load the program.
fn wrong_interpreter(path: &str, problem: &InterpreterProblem) -> (r: String)
    ensures
        r@ == wrong_interpreter_step(path@, problem.deep_view()),
{
    let mut step: String = "The ELF interpreter ".to_owned();
    step.append(path);
    match problem {
        InterpreterProblem::WrongArchitecture { found, wanted } => {
            step.append(" is built for ");
            step.append(found);
            step.append(" but the program is ");
            step.append(wanted);
            step.append("; the loader path is wrong (reinstall the program or the C library)");
        },
        InterpreterProblem::NotLoadable(reason) => {
            step.append(" is not a valid loader (");
            step.append(reason.as_str());
            step.append("); the loader path is wrong (reinstall the program or the C library)");
        },
    }
    step
}

/// Says what to do about the interpreter.
fn suggest_interpreter(steps: &mut Vec<String>, analysis: &Analysis)
    ensures
        final(steps).deep_view() == old(steps).deep_view() + interpreter_steps(
            analysis.deep_view(),
        ),
{
    let is_script: bool = match &analysis.kind {
        TargetKind::Script { .. } => true,
        _ => false,
    };
    match &analysis.interpreter {
        None => {},
        Some(i) => {
            let missing: String = missing_interpreter(is_script, i.path.as_str());
            push_step_if(steps, !i.exists, missing.as_str());
            let locked: String = locked_interpreter(i.path.as_str());
            push_step_if(steps, i.exists && !i.executable, locked.as_str());
            match &i.problem {
                Some(problem) => {
                    push_step(steps, wrong_interpreter(i.path.as_str(), problem));
                },
                None => {},
            }
        },
    }
    assert(steps.deep_view() =~= old(steps).deep_view() + interpreter_steps(analysis.deep_view()));
}

/// Says what to do about the architecture.
fn suggest_arch(steps: &mut Vec<String>, analysis: &Analysis)
    ensures
        final(steps).deep_view() == old(steps).deep_view() + arch_steps(analysis.deep_view()),
{
    match &analysis.arch {
        None => {},
        Some(f) => {
            if analysis.not_a_program.is_none() {
                if !f.compatible {
                    let mut step: String = "This program targets ".to_owned();
                    step.append(f.name);
                    step.append(" but the system is ");
                    match f.host_name {
                        Some(host) => {
                            step.append(host);
                        },
                        None => {
                            step.append("unknown");
                        },
                    }
                    step.append("; install the matching runtime");
                    push_step(steps, step);
                } else {
                    push_step_if(
                        steps,
                        !f.exact,
                        "This is a cross-architecture (for example 32-bit) program: it needs the compatibility loader and multilib libraries installed",
                    );
                }
            }
        },
    }
    assert(steps.deep_view() =~= old(steps).deep_view() + arch_steps(analysis.deep_view()));
}

/// Whether `LD_LIBRARY_PATH` is set.
fn library_path_is_set(env: &Vec<EnvFinding>) -> (r: bool)
    ensures
        r == has_library_path(env.deep_view()),
{
    let mut i: usize = 0;
    while i < env.len()
        invariant
            i <= env@.len(),
            forall|k: int|
                0 <= k < i ==> (#[trigger] env.deep_view()[k]).variable != "LD_LIBRARY_PATH"@,
        decreases env@.len() - i,
    {
        assert(env.deep_view()[i as int] == env@[i as int].deep_view());
        if text::same_text(env[i].variable.as_str(), "LD_LIBRARY_PATH") {
            return true;
        }
        i += 1;
    }
    false
}

/// Says what to do about symbols, versions and the environment.
fn suggest_others(steps: &mut Vec<String>, analysis: &Analysis)
    ensures
        final(steps).deep_view() == old(steps).deep_view() + other_steps(analysis.deep_view()),
{
    push_step_if(
        steps,
        analysis.unresolved.len() > 0,
        "Unresolved symbols usually mean the libraries on disk are older, newer, or partially upgraded — update or reinstall the packages that own them",
    );
    push_step_if(
        steps,
        analysis.version_problems.len() > 0,
        "A required symbol version is missing, which is the signature of a partial system upgrade; finish the upgrade and try again",
    );
    push_step_if(
        steps,
        library_path_is_set(&analysis.env),
        "Retry with `env -u LD_LIBRARY_PATH` to rule out a stale library override",
    );
    assert(steps.deep_view() =~= old(steps).deep_view() + other_steps(analysis.deep_view()));
}

/// Says what to do next.
pub fn suggestions(analysis: &Analysis, distro: &Distro) -> (r: Vec<String>)
    ensures
        r.deep_view() == steps_of(analysis.deep_view(), distro.family),
{
    let mut steps: Vec<String> = suggest_file(analysis);
    suggest_installs(&mut steps, &analysis.missing_libraries(), distro);
    suggest_repairs(&mut steps, &analysis.unusable_libraries());
    suggest_interpreter(&mut steps, analysis);
    suggest_arch(&mut steps, analysis);
    suggest_others(&mut steps, analysis);
    assert(steps.deep_view() == found_steps(analysis.deep_view(), distro.family));
    assert(steps@.len() == steps.deep_view().len());
    if steps.len() == 0 && analysis.is_analyzable() {
        push_step(&mut steps, NO_STEP.to_owned());
        assert(steps.deep_view() =~= seq![NO_STEP@]);
    }
    steps
}

/// Some numbered steps.
pub open spec fn step_lines(steps: Seq<Seq<char>>) -> Seq<char>
    decreases steps.len(),
{
    if steps.len() == 0 {
        Seq::empty()
    } else {
        step_lines(steps.drop_last()) + line(
            "  "@ + text::decimal(steps.len()) + ". "@ + steps.last(),
        )
    }
}

/// What to do next.
pub open spec fn suggestions_text(p: Painter, steps: Seq<Seq<char>>) -> Seq<char> {
    if steps.len() == 0 {
        Seq::empty()
    } else {
        line(p.bolded("Suggested next steps"@)) + step_lines(steps) + line(""@)
    }
}

fn render_suggestions(steps: &Vec<String>, painter: &Painter) -> (r: String)
    ensures
        r@ == suggestions_text(*painter, steps.deep_view()),
{
    if steps.len() == 0 {
        return String::new();
    }
    let ghost all = steps.deep_view();
    let mut out: String = painter.bold("Suggested next steps");
    out.append("\n");
    let ghost before = out@;
    let mut i: usize = 0;
    assert(all.take(0) =~= Seq::<Seq<char>>::empty());
    assert(before + step_lines(all.take(0)) =~= before);
    while i < steps.len()
        invariant
            i <= steps@.len(),
            all == steps.deep_view(),
            out@ == before + step_lines(all.take(i as int)),
        decreases steps@.len() - i,
    {
        assert(all.take(i + 1).drop_last() =~= all.take(i as int));
        let mut step: String = "  ".to_owned();
        push_count(&mut step, i + 1);
        step.append(". ");
        step.append(steps[i].as_str());
        push_line(&mut out, step.as_str());
        i += 1;
        assert(out@ =~= before + step_lines(all.take(i as int)));
    }
    assert(all.take(i as int) =~= all);
    push_line(&mut out, "");
    out
}

// ---------------------------------------------------------------------------
// The whole report
// ---------------------------------------------------------------------------

/// The last line of the report.
pub open spec fn summary_text(p: Painter, a: AnalysisView, ascii: bool) -> Seq<char> {
    let problems = counted(a.problems());
    if !a.analyzable() {
        p.dimmed("why v0.1 cannot diagnose this file"@)
    } else if problems == 0 {
        p.tinted(Status::Fine, glyph(Status::Fine, ascii)) + " "@ + p.tinted(
            Status::Fine,
            "no problems found"@,
        )
    } else {
        p.tinted(Status::Fail, glyph(Status::Fail, ascii)) + " "@ + p.tinted(
            Status::Fail,
            text::decimal(problems) + " problem"@ + ending(problems) + " found"@,
        )
    }
}

fn summary_line(analysis: &Analysis, ascii: bool, painter: &Painter) -> (r: String)
    ensures
        r@ == summary_text(*painter, analysis.deep_view(), ascii),
{
    if !analysis.is_analyzable() {
        return painter.dim("why v0.1 cannot diagnose this file");
    }
    let problems: usize = analysis.problem_count();
    if problems == 0 {
        let mut out: String = mark(painter, Status::Fine, ascii);
        out.append(" ");
        out.append(painter.colorize(Status::Fine, "no problems found").as_str());
        out
    } else {
        let mut count: String = String::new();
        push_count(&mut count, problems);
        count.append(" problem");
        count.append(plural(problems));
        count.append(" found");
        assert(count@ =~= text::decimal(problems as nat) + " problem"@ + ending(problems as nat)
            + " found"@);
        let mut out: String = mark(painter, Status::Fail, ascii);
        out.append(" ");
        out.append(painter.colorize(Status::Fail, count.as_str()).as_str());
        out
    }
}

/// What is said of a file that is not understood.
pub open spec fn not_elf_text(p: Painter, a: AnalysisView, description: Seq<char>, ascii: bool) -> Seq<
    char,
> {
    section_text(p, Status::Warn, "Not an ELF program"@, ascii) + line("  "@ + description) + line(
        ""@,
    ) + line(
        p.dimmed(
            "why v0.1 inspects ELF programs and scripts; other file types are not understood yet."@,
        ),
    ) + line(""@) + line(summary_text(p, a, ascii))
}

/// What is said of a program.
pub open spec fn findings_text(
    p: Painter,
    a: AnalysisView,
    options: OptionsView,
    family: distro::Family,
) -> Seq<char> {
    file_type_text(p, a, options.ascii) + permissions_text(p, a.permissions, options.ascii)
        + arch_text(p, a.arch, options.ascii) + interpreter_text(p, a, options.ascii)
        + libraries_text(p, a, options) + symbols_text(p, a, options) + versions_text(p, a, options)
        + environment_text(p, a.env, options) + notes_text(p, a.notes) + suggestions_text(
        p,
        steps_of(a, family),
    ) + line(summary_text(p, a, options.ascii))
}

/// The report.
pub open spec fn report_text(
    p: Painter,
    a: AnalysisView,
    options: OptionsView,
    family: distro::Family,
) -> Seq<char> {
    head_text(p, a) + (match a.kind {
        KindView::NotElf { description } => not_elf_text(p, a, description, options.ascii),
        _ => findings_text(p, a, options, family),
    })
}

fn render_not_elf(analysis: &Analysis, description: &str, ascii: bool, painter: &Painter) -> (r:
    String)
    ensures
        r@ == not_elf_text(*painter, analysis.deep_view(), description@, ascii),
{
    let mut out: String = section(painter, Status::Warn, "Not an ELF program", ascii);
    push_two(&mut out, "  ", description);
    push_line(&mut out, "");
    push_line(
        &mut out,
        painter.dim(
            "why v0.1 inspects ELF programs and scripts; other file types are not understood yet.",
        ).as_str(),
    );
    push_line(&mut out, "");
    push_line(&mut out, summary_line(analysis, ascii, painter).as_str());
    out
}

fn render_findings(analysis: &Analysis, options: &Options, distro: &Distro, painter: &Painter) -> (r:
    String)
    ensures
        r@ == findings_text(
            *painter,
            analysis.deep_view(),
            options.deep_view(),
            distro.family,
        ),
{
    let ascii: bool = options.ascii;
    let mut out: String = render_file_type(analysis, ascii, painter);
    out.append(render_permissions(&analysis.permissions, ascii, painter).as_str());
    out.append(render_arch(&analysis.arch, ascii, painter).as_str());
    out.append(render_interpreter(analysis, ascii, painter).as_str());
    out.append(render_libraries(analysis, options, painter).as_str());
    out.append(render_symbols(analysis, options, painter).as_str());
    out.append(render_versions(analysis, options, painter).as_str());
    out.append(render_environment(&analysis.env, options, painter).as_str());
    out.append(render_notes(&analysis.notes, painter).as_str());
    out.append(render_suggestions(&suggestions(analysis, distro), painter).as_str());
    push_line(&mut out, summary_line(analysis, ascii, painter).as_str());
    out
}

/// Writes the report into a string, with colours where the painter puts them.
pub fn render(analysis: &Analysis, options: &Options, distro: &Distro, painter: &Painter) -> (r:
    String)
    ensures
        r@ == report_text(*painter, analysis.deep_view(), options.deep_view(), distro.family),
{
    let mut out: String = render_head(analysis, painter);
    match &analysis.kind {
        TargetKind::NotElf { description } => {
            out.append(
                render_not_elf(analysis, description.as_str(), options.ascii, painter).as_str(),
            );
        },
        _ => {
            out.append(render_findings(analysis, options, distro, painter).as_str());
        },
    }
    out
}

/// Colours are put on text that goes to a terminal, unless the options or the
/// environment (`NO_COLOR`) say otherwise.
pub fn painter_for(options: &Options, no_color_is_set: bool, is_terminal: bool) -> (r: Painter)
    ensures
        r.color == (!options.no_color && !no_color_is_set && is_terminal),
{
    Painter { color: !options.no_color && !no_color_is_set && is_terminal }
}

/// Writes the report into a string, without colours.
pub fn to_string(analysis: &Analysis, options: &Options, distro: &Distro) -> (r: String)
    ensures
        r@ == report_text(
            (Painter { color: false }),
            analysis.deep_view(),
            options.deep_view(),
            distro.family,
        ),
{
    render(analysis, options, distro, &Painter { color: false })
}

// ---------------------------------------------------------------------------
// Laws
// ---------------------------------------------------------------------------

/// The last line agrees with the exit status.
pub proof fn the_summary_agrees_with_the_exit_status(p: Painter, a: AnalysisView, ascii: bool)
    ensures
        a.code() == 0 ==> summary_text(p, a, ascii) == p.tinted(
            Status::Fine,
            glyph(Status::Fine, ascii),
        ) + " "@ + p.tinted(Status::Fine, "no problems found"@),
        a.code() == 1 ==> summary_text(p, a, ascii) == p.tinted(
            Status::Fail,
            glyph(Status::Fail, ascii),
        ) + " "@ + p.tinted(
            Status::Fail,
            text::decimal(counted(a.problems())) + " problem"@ + ending(counted(a.problems()))
                + " found"@,
        ),
        a.code() == 2 ==> summary_text(p, a, ascii) == p.dimmed(
            "why v0.1 cannot diagnose this file"@,
        ),
{
}

/// A step stays where more are added.
proof fn lemma_with_step(steps: Seq<Seq<char>>, step: Seq<char>)
    ensures
        with_step(steps, step).contains(step),
        with_step(steps, step).len() > 0,
        forall|x: Seq<char>| steps.contains(x) ==> #[trigger] with_step(steps, step).contains(x),
{
    let after = with_step(steps, step);
    if !steps.contains(step) {
        assert(after[steps.len() as int] == step);
        assert forall|x: Seq<char>| steps.contains(x) implies #[trigger] after.contains(x) by {
            let i = choose|i: int| 0 <= i < steps.len() && steps[i] == x;
            assert(after[i] == x);
        }
    }
}

pub proof fn lemma_with_installs(
    steps: Seq<Seq<char>>,
    missing: Seq<LibraryView>,
    family: distro::Family,
)
    ensures
        forall|x: Seq<char>|
            steps.contains(x) ==> #[trigger] with_installs(steps, missing, family).contains(x),
        forall|i: int|
            0 <= i < missing.len() ==> with_installs(steps, missing, family).contains(
                install_step((#[trigger] missing[i]).name, family),
            ),
    decreases missing.len(),
{
    if missing.len() > 0 {
        let front = missing.drop_last();
        lemma_with_installs(steps, front, family);
        let before = with_installs(steps, front, family);
        lemma_with_step(before, install_step(missing.last().name, family));
        assert forall|i: int| 0 <= i < missing.len() implies with_installs(
            steps,
            missing,
            family,
        ).contains(install_step((#[trigger] missing[i]).name, family)) by {
            if i < front.len() {
                assert(front[i] == missing[i]);
                assert(before.contains(install_step(front[i].name, family)));
            }
        }
    }
}

/// What to do about a library that is there and cannot be used.
pub open spec fn repair_step(library: LibraryView) -> Option<Seq<char>> {
    match library.resolution {
        ResolutionView::WrongArchitecture { path, found, wanted } => Some(
            rebuild_step(library.name, path, found, wanted),
        ),
        ResolutionView::Unusable { path, reason } => Some(
            replace_step(library.name, path, reason),
        ),
        _ => None,
    }
}

proof fn lemma_with_repairs(steps: Seq<Seq<char>>, unusable: Seq<LibraryView>)
    ensures
        forall|x: Seq<char>|
            steps.contains(x) ==> #[trigger] with_repairs(steps, unusable).contains(x),
        forall|i: int|
            0 <= i < unusable.len() ==> (repair_step(#[trigger] unusable[i]) matches Some(step)
                ==> with_repairs(steps, unusable).contains(step)),
    decreases unusable.len(),
{
    if unusable.len() > 0 {
        let front = unusable.drop_last();
        lemma_with_repairs(steps, front);
        let before = with_repairs(steps, front);
        match repair_step(unusable.last()) {
            Some(step) => {
                lemma_with_step(before, step);
            },
            None => {},
        }
        assert forall|i: int| 0 <= i < unusable.len() implies (repair_step(
            #[trigger] unusable[i],
        ) matches Some(step) ==> with_repairs(steps, unusable).contains(step)) by {
            if i < front.len() {
                assert(front[i] == unusable[i]);
            }
        }
    }
}

/// The missing and the unusable libraries are picked from all.
pub proof fn lemma_picked(libraries: Seq<LibraryView>, i: int)
    requires
        0 <= i < libraries.len(),
    ensures
        libraries[i].resolution is Missing ==> analyze::missing_among(libraries).contains(
            libraries[i],
        ),
        !(libraries[i].resolution is Found) ==> analyze::unusable_among(libraries).contains(
            libraries[i],
        ),
    decreases libraries.len(),
{
    let front = libraries.drop_last();
    let missing = analyze::missing_among(libraries);
    let unusable = analyze::unusable_among(libraries);
    if i < front.len() {
        lemma_picked(front, i);
        assert(front[i] == libraries[i]);
        let x = libraries[i];
        let m = analyze::missing_among(front);
        let u = analyze::unusable_among(front);
        if m.contains(x) {
            let k = choose|k: int| 0 <= k < m.len() && m[k] == x;
            assert(missing[k] == x);
        }
        if u.contains(x) {
            let k = choose|k: int| 0 <= k < u.len() && u[k] == x;
            assert(unusable[k] == x);
        }
    } else {
        if libraries[i].resolution is Missing {
            assert(missing[missing.len() - 1] == libraries[i]);
        }
        if !(libraries[i].resolution is Found) {
            assert(unusable[unusable.len() - 1] == libraries[i]);
        }
    }
}

/// For every library that cannot be used, the report suggests a step: to
/// install it where it is missing, and to repair it where it is there.
pub proof fn every_unusable_library_gets_a_step(a: AnalysisView, family: distro::Family, i: int)
    requires
        0 <= i < a.libraries.len(),
    ensures
        a.libraries[i].resolution is Missing ==> steps_of(a, family).contains(
            install_step(a.libraries[i].name, family),
        ),
        repair_step(a.libraries[i]) matches Some(step) ==> steps_of(a, family).contains(step),
{
    let library = a.libraries[i];
    let missing = analyze::missing_among(a.libraries);
    let unusable = analyze::unusable_among(a.libraries);
    let first = with_installs(file_steps(a), missing, family);
    let second = with_repairs(first, unusable);
    let all = found_steps(a, family);
    lemma_picked(a.libraries, i);
    lemma_with_installs(file_steps(a), missing, family);
    lemma_with_repairs(first, unusable);
    assert forall|x: Seq<char>| second.contains(x) implies #[trigger] all.contains(x) by {
        let k = choose|k: int| 0 <= k < second.len() && second[k] == x;
        assert(all[k] == x);
    }
    if library.resolution is Missing {
        let k = choose|k: int| 0 <= k < missing.len() && missing[k] == library;
        assert(first.contains(install_step(missing[k].name, family)));
        let step = install_step(library.name, family);
        assert(second.contains(step));
        assert(all.contains(step));
        let j = choose|j: int| 0 <= j < all.len() && all[j] == step;
        assert(all.len() > 0);
    }
    match repair_step(library) {
        Some(step) => {
            let k = choose|k: int| 0 <= k < unusable.len() && unusable[k] == library;
            assert(repair_step(unusable[k]) == Some(step));
            assert(second.contains(step));
            assert(all.contains(step));
            let j = choose|j: int| 0 <= j < all.len() && all[j] == step;
            assert(all.len() > 0);
        },
        None => {},
    }
}

/// Every problem besides the libraries has its step too: there is one for each
/// problem of the file itself, one for an interpreter that does not work, one
/// for the architecture of a program, and one each for open symbols and lacking
/// versions; and the report suggests all of them.
pub proof fn every_problem_gets_a_step(a: AnalysisView, family: distro::Family)
    ensures
        file_steps(a).len() == analyze::one_if(a.not_a_program is Some) + analyze::one_if(
            a.permissions matches Some(p) && !p.executable,
        ),
        a.interpreter matches Some(i) && !i.works() ==> interpreter_steps(a).len() > 0,
        a.not_a_program is None && (a.arch matches Some(f) && !f.compatible) ==> arch_steps(a).len()
            > 0,
        other_steps(a).len() >= analyze::one_if(a.unresolved.len() > 0) + analyze::one_if(
            a.version_problems.len() > 0,
        ),
        forall|x: Seq<char>|
            file_steps(a).contains(x) || interpreter_steps(a).contains(x) || arch_steps(a).contains(
                x,
            ) || other_steps(a).contains(x) ==> #[trigger] steps_of(a, family).contains(x),
{
    let missing = analyze::missing_among(a.libraries);
    let unusable = analyze::unusable_among(a.libraries);
    let first = with_installs(file_steps(a), missing, family);
    let second = with_repairs(first, unusable);
    let all = found_steps(a, family);
    lemma_with_installs(file_steps(a), missing, family);
    lemma_with_repairs(first, unusable);
    assert forall|x: Seq<char>|
        file_steps(a).contains(x) || interpreter_steps(a).contains(x) || arch_steps(a).contains(x)
            || other_steps(a).contains(x) implies #[trigger] steps_of(a, family).contains(x) by {
        let third = second + interpreter_steps(a);
        let fourth = third + arch_steps(a);
        if file_steps(a).contains(x) {
            assert(first.contains(x));
            assert(second.contains(x));
            let k = choose|k: int| 0 <= k < second.len() && second[k] == x;
            assert(all[k] == x);
        } else if interpreter_steps(a).contains(x) {
            let k = choose|k: int| 0 <= k < interpreter_steps(a).len() && interpreter_steps(a)[k] == x;
            assert(all[second.len() + k] == x);
        } else if arch_steps(a).contains(x) {
            let k = choose|k: int| 0 <= k < arch_steps(a).len() && arch_steps(a)[k] == x;
            assert(all[third.len() + k] == x);
        } else {
            let k = choose|k: int| 0 <= k < other_steps(a).len() && other_steps(a)[k] == x;
            assert(all[fourth.len() + k] == x);
        }
        assert(all.contains(x));
    }
}

/// Steps that begin in another way than the one that says that no problem was
/// found.
spec fn all_differ(steps: Seq<Seq<char>>) -> bool {
    forall|i: int| 0 <= i < steps.len() ==> differs(#[trigger] steps[i])
}

spec fn differs(step: Seq<char>) -> bool {
    step.len() > 0 && step[0] != 'N'
}

/// The step is the one for a library that is there and cannot be used.
spec fn is_repair(step: Seq<char>, libraries: Seq<LibraryView>) -> bool {
    exists|j: int|
        0 <= j < libraries.len() && repair_step(#[trigger] libraries[j]) == Some(step)
}

proof fn lemma_installs_differ(
    steps: Seq<Seq<char>>,
    missing: Seq<LibraryView>,
    family: distro::Family,
)
    requires
        all_differ(steps),
    ensures
        all_differ(with_installs(steps, missing, family)),
    decreases missing.len(),
{
    if missing.len() > 0 {
        lemma_installs_differ(steps, missing.drop_last(), family);
        reveal_strlit("Find and install the package that provides ");
        assert(install_step(missing.last().name, family)[0] == 'F');
    }
}

proof fn lemma_repairs(steps: Seq<Seq<char>>, unusable: Seq<LibraryView>)
    requires
        all_differ(steps),
    ensures
        forall|k: int|
            0 <= k < with_repairs(steps, unusable).len() ==> differs(
                #[trigger] with_repairs(steps, unusable)[k],
            ) || is_repair(with_repairs(steps, unusable)[k], unusable),
    decreases unusable.len(),
{
    if unusable.len() > 0 {
        let front = unusable.drop_last();
        let before = with_repairs(steps, front);
        let after = with_repairs(steps, unusable);
        lemma_repairs(steps, front);
        assert forall|k: int| 0 <= k < after.len() implies differs(#[trigger] after[k])
            || is_repair(after[k], unusable) by {
            if k < before.len() {
                assert(after[k] == before[k]);
                if is_repair(before[k], front) {
                    let j = choose|j: int|
                        0 <= j < front.len() && repair_step(#[trigger] front[j]) == Some(before[k]);
                    assert(repair_step(unusable[j]) == Some(after[k]));
                }
            } else {
                assert(repair_step(unusable[unusable.len() - 1]) == Some(after[k]));
            }
        }
    }
}

/// The unusable libraries are some of all.
proof fn lemma_unusable_among(libraries: Seq<LibraryView>, k: int)
    requires
        0 <= k < analyze::unusable_among(libraries).len(),
    ensures
        libraries.contains(analyze::unusable_among(libraries)[k]),
    decreases libraries.len(),
{
    let x = analyze::unusable_among(libraries)[k];
    let front = libraries.drop_last();
    if k < analyze::unusable_among(front).len() {
        lemma_unusable_among(front, k);
        let j = choose|j: int| 0 <= j < front.len() && front[j] == x;
        assert(libraries[j] == x);
    } else {
        assert(libraries[libraries.len() - 1] == x);
    }
}

proof fn lemma_interpreter_steps_differ(a: AnalysisView)
    ensures
        all_differ(interpreter_steps(a)),
{
    reveal_strlit("The interpreter `");
    reveal_strlit("The interpreter ");
    reveal_strlit("Install the dynamic loader at ");
    reveal_strlit("Make the interpreter executable: `chmod +x ");
    reveal_strlit("The ELF interpreter ");
    match a.interpreter {
        Some(i) => {
            let missing = missing_interpreter_step(a.kind is Script, i.path);
            assert(missing[0] == 'T' || missing[0] == 'I');
            assert(locked_interpreter_step(i.path)[0] == 'M');
            match i.problem {
                Some(problem) => {
                    assert(wrong_interpreter_step(i.path, problem)[0] == 'T');
                },
                None => {},
            }
        },
        None => {},
    }
}

/// What is suggested for what was found begins in another way, or is the step
/// for a library that is there and cannot be used.
proof fn lemma_found_step(a: AnalysisView, family: distro::Family, k: int)
    requires
        0 <= k < found_steps(a, family).len(),
    ensures
        differs(found_steps(a, family)[k]) || is_repair(found_steps(a, family)[k], a.libraries),
{
    let missing = analyze::missing_among(a.libraries);
    let unusable = analyze::unusable_among(a.libraries);
    let first = with_installs(file_steps(a), missing, family);
    let second = with_repairs(first, unusable);
    let step = found_steps(a, family)[k];
    assert(all_differ(file_steps(a))) by {
        reveal_strlit(
            "Point `why` at the program that runs this file (the executable or the loader), not at the object itself",
        );
        reveal_strlit("Make the file executable: `chmod +x ");
    }
    lemma_installs_differ(file_steps(a), missing, family);
    lemma_repairs(first, unusable);
    lemma_interpreter_steps_differ(a);
    assert(all_differ(arch_steps(a))) by {
        reveal_strlit("This program targets ");
        reveal_strlit(
            "This is a cross-architecture (for example 32-bit) program: it needs the compatibility loader and multilib libraries installed",
        );
    }
    assert(all_differ(other_steps(a))) by {
        reveal_strlit(
            "Unresolved symbols usually mean the libraries on disk are older, newer, or partially upgraded — update or reinstall the packages that own them",
        );
        reveal_strlit(
            "A required symbol version is missing, which is the signature of a partial system upgrade; finish the upgrade and try again",
        );
        reveal_strlit("Retry with `env -u LD_LIBRARY_PATH` to rule out a stale library override");
    }
    if k < second.len() {
        assert(step == second[k]);
        if is_repair(step, unusable) {
            let j = choose|j: int|
                0 <= j < unusable.len() && repair_step(#[trigger] unusable[j]) == Some(step);
            lemma_unusable_among(a.libraries, j);
            let i = choose|i: int| 0 <= i < a.libraries.len() && a.libraries[i] == unusable[j];
            assert(repair_step(a.libraries[i]) == Some(step));
        }
    }
}

/// Nothing that is suggested for what was found says that no problem was.
proof fn lemma_found_steps_are_advice(a: AnalysisView, family: distro::Family)
    ensures
        !found_steps(a, family).contains(NO_STEP@),
{
    let all = found_steps(a, family);
    reveal_strlit(
        "No problem was found in the ELF metadata; the failure is likely at runtime (arguments, configuration, permissions) or in an area `why` does not inspect yet — see TODO",
    );
    reveal_strlit(" version of the package that provides it");
    reveal_strlit("; replace it or remove it from the search path");
    if all.contains(NO_STEP@) {
        let k = choose|k: int| 0 <= k < all.len() && all[k] == NO_STEP@;
        lemma_found_step(a, family, k);
        let j = choose|j: int|
            0 <= j < a.libraries.len() && repair_step(#[trigger] a.libraries[j]) == Some(all[k]);
        assert(all[k].last() == 't' || all[k].last() == 'h');
    }
}

/// The step for a library begins with words in which there is no bracket only
/// where the name of the library does.
proof fn lemma_repair_begins(library: LibraryView, words: Seq<char>)
    requires
        repair_step(library) matches Some(step) && text::starts_with(step, words),
        !words.contains('('),
        words.len() > 0,
        words.last() != ' ',
    ensures
        text::starts_with(library.name, words),
{
    let step = repair_step(library)->0;
    let name = library.name;
    let n = name.len() as int;
    reveal_strlit(" (");
    assert(step.subrange(0, words.len() as int) == words);
    assert(step[n] == ' ' && step[n + 1] == '(');
    if words.len() > n + 1 {
        assert(words[n + 1] == step.subrange(0, words.len() as int)[n + 1]);
        assert(words.contains(words[n + 1]));
    } else if words.len() == n + 1 {
        assert(words.last() == step.subrange(0, words.len() as int)[n]);
    } else {
        assert(name.subrange(0, words.len() as int) =~= step.subrange(0, words.len() as int));
    }
}

/// Where there is a problem, no step begins by saying that none was found. A
/// step for a library begins with the name of the library, so this is said
/// where no library goes by a name that begins so.
pub proof fn no_problem_is_denied(a: AnalysisView, family: distro::Family, i: int)
    requires
        a.problems() > 0,
        0 <= i < steps_of(a, family).len(),
        forall|j: int|
            0 <= j < a.libraries.len() ==> !text::starts_with(
                (#[trigger] a.libraries[j]).name,
                "No problem was found"@,
            ),
    ensures
        !text::starts_with(steps_of(a, family)[i], "No problem was found"@),
{
    let words = "No problem was found"@;
    reveal_strlit("No problem was found");
    let all = found_steps(a, family);
    if a.analyzable() {
        there_is_always_a_next_step(a, family);
    }
    assert(steps_of(a, family) == all);
    if text::starts_with(all[i], words) {
        assert(all[i].subrange(0, words.len() as int)[0] == words[0]);
        lemma_found_step(a, family, i);
        let j = choose|j: int|
            0 <= j < a.libraries.len() && repair_step(#[trigger] a.libraries[j]) == Some(all[i]);
        assert(!words.contains('('));
        lemma_repair_begins(a.libraries[j], words);
    }
}

/// A report on something that was understood always suggests a step, and that
/// no problem was found is said only where there is none.
pub proof fn there_is_always_a_next_step(a: AnalysisView, family: distro::Family)
    requires
        a.analyzable(),
    ensures
        steps_of(a, family).len() > 0,
        steps_of(a, family).contains(NO_STEP@) ==> a.problems() == 0,
        a.problems() > 0 ==> steps_of(a, family) == found_steps(a, family),
{
    let missing = analyze::missing_among(a.libraries);
    let unusable = analyze::unusable_among(a.libraries);
    let first = with_installs(file_steps(a), missing, family);
    let second = with_repairs(first, unusable);
    let all = found_steps(a, family);
    lemma_found_steps_are_advice(a, family);
    if all.len() == 0 {
        assert(second.len() == 0);
        assert(interpreter_steps(a).len() == 0);
        assert(arch_steps(a).len() == 0);
        assert(other_steps(a).len() == 0);
        lemma_with_installs(file_steps(a), missing, family);
        lemma_with_repairs(first, unusable);
        if file_steps(a).len() > 0 {
            let x = file_steps(a)[0];
            assert(file_steps(a).contains(x));
            assert(first.contains(x));
            assert(second.contains(x));
        }
        if unusable.len() > 0 {
            analyze::some_library_is_unusable(a.libraries);
            let i = choose|i: int|
                0 <= i < a.libraries.len() && !((#[trigger] a.libraries[i]).resolution is Found);
            every_unusable_library_gets_a_step(a, family, i);
            lemma_picked(a.libraries, i);
            if a.libraries[i].resolution is Missing {
                let k = choose|k: int| 0 <= k < missing.len() && missing[k] == a.libraries[i];
                assert(first.contains(install_step(missing[k].name, family)));
                assert(second.contains(install_step(missing[k].name, family)));
            } else {
                let k = choose|k: int| 0 <= k < unusable.len() && unusable[k] == a.libraries[i];
                assert(repair_step(unusable[k]) is Some);
                assert(second.contains(repair_step(unusable[k])->0));
            }
        }
    }
}

/// Without colours, nothing is put on text.
pub proof fn a_plain_painter_adds_nothing(s: Seq<char>, status: Status)
    ensures
        ({
            let plain = Painter { color: false };
            &&& plain.bolded(s) == s
            &&& plain.dimmed(s) == s
            &&& plain.tinted(status, s) == s
        }),
{
}

/// The marks that stand for a status where ASCII is asked for are ASCII.
pub proof fn ascii_marks_are_ascii(status: Status, i: int)
    requires
        0 <= i < glyph(status, true).len(),
    ensures
        (glyph(status, true)[i] as u32) < 128,
{
    reveal_strlit("[ok]");
    reveal_strlit("[!]");
    reveal_strlit("[x]");
    reveal_strlit("[-]");
}

} // verus!
