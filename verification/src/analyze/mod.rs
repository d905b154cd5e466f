//! Turns ELF facts into findings a human can act on.
//!
//! The interesting part of a "why does this not start?" answer is not any
//! single check but the dependency graph: which object asked for what, in what
//! order, and where the chain breaks. [`walk`] walks that graph once,
//! breadth-first, and each parsed object is reused for every question
//! afterwards.
//!
//! Nothing here touches the file system. What stands there is handed over as
//! plain values: the bytes of files, their permission bits, the places that
//! were probed, and the variables of the environment.

use vstd::prelude::*;
use crate::elf::{Class, ElfFile, ElfView};

pub mod host;
pub mod link;
pub mod script;
pub mod target;
pub mod walk;

pub use host::is_executable;
pub use target::{analyze, Inspection, Target};

verus! {

/// How bad a finding is.
#[derive(Debug, Clone, Copy, PartialEq, Eq, Structural)]
pub enum Status {
    /// Nothing wrong.
    Fine,
    /// Suspicious but not necessarily the cause.
    Warn,
    /// A concrete reason the program will not work.
    Fail,
    /// Context, not a judgement.
    Info,
}

impl Status {
    /// How severe a status is.
    pub open spec fn severity(self) -> u8 {
        match self {
            Status::Fine => 0,
            Status::Info => 0,
            Status::Warn => 1,
            Status::Fail => 2,
        }
    }

    fn rank(self) -> (r: u8)
        ensures
            r == self.severity(),
    {
        match self {
            Status::Fine => 0,
            Status::Info => 0,
            Status::Warn => 1,
            Status::Fail => 2,
        }
    }

    /// The more severe of two statuses; the first where neither is.
    pub open spec fn worst(self, other: Status) -> Status {
        if other.severity() > self.severity() {
            other
        } else {
            self
        }
    }

    /// The more severe of two statuses.
    pub fn worse(self, other: Status) -> (r: Status)
        ensures
            r == self.worst(other),
    {
        if other.rank() > self.rank() {
            other
        } else {
            self
        }
    }
}

/// The more severe of two statuses is one of them, and neither is more severe.
/// Whatever the order in which several are put together, the severity that
/// comes out is the same.
pub proof fn worse_is_the_maximum(a: Status, b: Status, c: Status)
    ensures
        a.worst(b) == a || a.worst(b) == b,
        a.worst(b).severity() >= a.severity() && a.worst(b).severity() >= b.severity(),
        a.worst(b).severity() == b.worst(a).severity(),
        a.worst(b).worst(c) == a.worst(b.worst(c)),
{
}

/// Why the target could not be read.
#[derive(Debug)]
pub enum AnalyzeError {
    Io(String),
}

impl AnalyzeError {
    /// The text of the error.
    pub open spec fn text(self) -> Seq<char> {
        match self {
            AnalyzeError::Io(m) => m@,
        }
    }

    /// The text of the error.
    pub fn message(&self) -> (r: String)
        ensures
            r@ == self.text(),
    {
        match self {
            AnalyzeError::Io(m) => m.clone(),
        }
    }
}

/// What kind of thing was inspected.
#[derive(Debug, Clone)]
pub enum TargetKind {
    Elf(Box<ElfFile>),
    Script { interpreter: String },
    NotElf { description: String },
}

/// What a [`TargetKind`] holds.
pub enum KindView {
    Elf(ElfView),
    Script { interpreter: Seq<char> },
    NotElf { description: Seq<char> },
}

impl DeepView for TargetKind {
    type V = KindView;

    open spec fn deep_view(&self) -> KindView {
        match self {
            TargetKind::Elf(elf) => KindView::Elf(elf.deep_view()),
            TargetKind::Script { interpreter } => KindView::Script { interpreter: interpreter@ },
            TargetKind::NotElf { description } => KindView::NotElf { description: description@ },
        }
    }
}

/// The architecture comparison.
#[derive(Debug, Clone)]
pub struct ArchFinding {
    pub name: &'static str,
    pub class: Class,
    /// `None` when the host architecture is not recognised.
    pub host_name: Option<&'static str>,
    /// Host word size in bits, when known.
    pub host_bits: Option<u32>,
    /// The host can run this program, natively or through a compatibility mode
    /// (for example 32-bit i386 on an x86-64 kernel).
    pub compatible: bool,
    /// Same machine *and* word size as the host.
    pub exact: bool,
}

/// What an [`ArchFinding`] holds.
pub struct ArchView {
    pub name: Seq<char>,
    pub class: Class,
    pub host_name: Option<Seq<char>>,
    pub host_bits: Option<u32>,
    pub compatible: bool,
    pub exact: bool,
}

impl DeepView for ArchFinding {
    type V = ArchView;

    open spec fn deep_view(&self) -> ArchView {
        ArchView {
            name: self.name@,
            class: self.class,
            host_name: self.host_name.deep_view(),
            host_bits: self.host_bits,
            compatible: self.compatible,
            exact: self.exact,
        }
    }
}

/// Why an interpreter cannot serve as a loader.
#[derive(Debug, Clone, PartialEq, Eq)]
pub enum InterpreterProblem {
    /// The loader is built for a different class or machine than the program.
    WrongArchitecture { found: &'static str, wanted: &'static str },
    /// The loader is not a loadable ELF object at all (not ELF, truncated, or
    /// of a type the kernel will not run).
    NotLoadable(String),
}

/// What an [`InterpreterProblem`] holds.
pub enum ProblemView {
    WrongArchitecture { found: Seq<char>, wanted: Seq<char> },
    NotLoadable(Seq<char>),
}

impl DeepView for InterpreterProblem {
    type V = ProblemView;

    open spec fn deep_view(&self) -> ProblemView {
        match self {
            InterpreterProblem::WrongArchitecture { found, wanted } =>
                ProblemView::WrongArchitecture { found: found@, wanted: wanted@ },
            InterpreterProblem::NotLoadable(reason) => ProblemView::NotLoadable(reason@),
        }
    }
}

/// The `PT_INTERP` (or shebang) interpreter.
#[derive(Debug, Clone)]
pub struct InterpreterFinding {
    pub path: String,
    pub exists: bool,
    pub executable: bool,
    /// Set when the interpreter cannot actually load the program.
    pub problem: Option<InterpreterProblem>,
}

/// What an [`InterpreterFinding`] holds.
pub struct InterpreterView {
    pub path: Seq<char>,
    pub exists: bool,
    pub executable: bool,
    pub problem: Option<ProblemView>,
}

impl InterpreterView {
    /// The interpreter can start the program.
    pub open spec fn works(self) -> bool {
        self.exists && self.executable && self.problem is None
    }
}

impl DeepView for InterpreterFinding {
    type V = InterpreterView;

    open spec fn deep_view(&self) -> InterpreterView {
        InterpreterView {
            path: self.path@,
            exists: self.exists,
            executable: self.executable,
            problem: self.problem.deep_view(),
        }
    }
}

/// Whether the file can actually be executed.
#[derive(Debug, Clone)]
pub struct PermissionFinding {
    pub path: String,
    pub executable: bool,
    /// The permission bits, for a `mode 0644` style message.
    pub mode: u32,
}

/// What a [`PermissionFinding`] holds.
pub struct PermissionView {
    pub path: Seq<char>,
    pub executable: bool,
    pub mode: u32,
}

impl DeepView for PermissionFinding {
    type V = PermissionView;

    open spec fn deep_view(&self) -> PermissionView {
        PermissionView { path: self.path@, executable: self.executable, mode: self.mode }
    }
}

/// Where a `DT_NEEDED` object ended up.
#[derive(Debug, Clone, PartialEq, Eq)]
pub enum LibResolution {
    Found(String),
    /// A file with the right name exists, but it is built for another machine
    /// or word size, so the loader cannot use it.
    WrongArchitecture { path: String, found: &'static str, wanted: &'static str },
    /// A file with the right name exists, but it is not a loadable ELF object.
    Unusable { path: String, reason: String },
    Missing,
}

/// What a [`LibResolution`] holds.
pub enum ResolutionView {
    Found(Seq<char>),
    WrongArchitecture { path: Seq<char>, found: Seq<char>, wanted: Seq<char> },
    Unusable { path: Seq<char>, reason: Seq<char> },
    Missing,
}

impl DeepView for LibResolution {
    type V = ResolutionView;

    open spec fn deep_view(&self) -> ResolutionView {
        match self {
            LibResolution::Found(path) => ResolutionView::Found(path@),
            LibResolution::WrongArchitecture { path, found, wanted } =>
                ResolutionView::WrongArchitecture { path: path@, found: found@, wanted: wanted@ },
            LibResolution::Unusable { path, reason } => ResolutionView::Unusable {
                path: path@,
                reason: reason@,
            },
            LibResolution::Missing => ResolutionView::Missing,
        }
    }
}

/// One shared library, merged across every object that asks for it.
#[derive(Debug, Clone)]
pub struct LibraryFinding {
    pub name: String,
    pub needed_by: Vec<String>,
    pub resolution: LibResolution,
}

/// What a [`LibraryFinding`] holds.
pub struct LibraryView {
    pub name: Seq<char>,
    pub needed_by: Seq<Seq<char>>,
    pub resolution: ResolutionView,
}

impl DeepView for LibraryFinding {
    type V = LibraryView;

    open spec fn deep_view(&self) -> LibraryView {
        LibraryView {
            name: self.name@,
            needed_by: self.needed_by.deep_view(),
            resolution: self.resolution.deep_view(),
        }
    }
}

/// A symbol no object in the dependency graph defines.
#[derive(Debug, Clone)]
pub struct UnresolvedSymbol {
    pub name: String,
    pub version: Option<String>,
    pub object: String,
}

/// What an [`UnresolvedSymbol`] holds.
pub struct UnresolvedView {
    pub name: Seq<char>,
    pub version: Option<Seq<char>>,
    pub object: Seq<char>,
}

impl DeepView for UnresolvedSymbol {
    type V = UnresolvedView;

    open spec fn deep_view(&self) -> UnresolvedView {
        UnresolvedView {
            name: self.name@,
            version: self.version.deep_view(),
            object: self.object@,
        }
    }
}

/// A versioned import the providing library does not define.
#[derive(Debug, Clone)]
pub struct VersionProblem {
    pub object: String,
    pub library: String,
    pub required: String,
    pub library_path: Option<String>,
    /// The closest older version the system does provide, for the classic
    /// "needs GLIBC_2.42, provides GLIBC_2.41" message.
    pub best_provided: Option<String>,
}

/// What a [`VersionProblem`] holds.
pub struct VersionView {
    pub object: Seq<char>,
    pub library: Seq<char>,
    pub required: Seq<char>,
    pub library_path: Option<Seq<char>>,
    pub best_provided: Option<Seq<char>>,
}

impl DeepView for VersionProblem {
    type V = VersionView;

    open spec fn deep_view(&self) -> VersionView {
        VersionView {
            object: self.object@,
            library: self.library@,
            required: self.required@,
            library_path: self.library_path.deep_view(),
            best_provided: self.best_provided.deep_view(),
        }
    }
}

/// An environment variable that changes how programs start.
#[derive(Debug, Clone)]
pub struct EnvFinding {
    pub variable: String,
    pub value: String,
    pub note: String,
    pub status: Status,
}

/// What an [`EnvFinding`] holds.
pub struct EnvView {
    pub variable: Seq<char>,
    pub value: Seq<char>,
    pub note: Seq<char>,
    pub status: Status,
}

impl DeepView for EnvFinding {
    type V = EnvView;

    open spec fn deep_view(&self) -> EnvView {
        EnvView {
            variable: self.variable@,
            value: self.value@,
            note: self.note@,
            status: self.status,
        }
    }
}

/// Everything `why` learned about the target.
#[derive(Debug, Clone)]
pub struct Analysis {
    pub path: String,
    pub kind: TargetKind,
    /// Set when the target cannot be run at all (a relocatable object or a core
    /// dump). The message explains what it actually is.
    pub not_a_program: Option<String>,
    pub arch: Option<ArchFinding>,
    pub permissions: Option<PermissionFinding>,
    pub interpreter: Option<InterpreterFinding>,
    pub libraries: Vec<LibraryFinding>,
    pub unresolved: Vec<UnresolvedSymbol>,
    pub version_problems: Vec<VersionProblem>,
    pub env: Vec<EnvFinding>,
    pub notes: Vec<String>,
}

/// What an [`Analysis`] holds.
pub struct AnalysisView {
    pub path: Seq<char>,
    pub kind: KindView,
    pub not_a_program: Option<Seq<char>>,
    pub arch: Option<ArchView>,
    pub permissions: Option<PermissionView>,
    pub interpreter: Option<InterpreterView>,
    pub libraries: Seq<LibraryView>,
    pub unresolved: Seq<UnresolvedView>,
    pub version_problems: Seq<VersionView>,
    pub env: Seq<EnvView>,
    pub notes: Seq<Seq<char>>,
}

impl DeepView for Analysis {
    type V = AnalysisView;

    open spec fn deep_view(&self) -> AnalysisView {
        AnalysisView {
            path: self.path@,
            kind: self.kind.deep_view(),
            not_a_program: self.not_a_program.deep_view(),
            arch: self.arch.deep_view(),
            permissions: self.permissions.deep_view(),
            interpreter: self.interpreter.deep_view(),
            libraries: self.libraries.deep_view(),
            unresolved: self.unresolved.deep_view(),
            version_problems: self.version_problems.deep_view(),
            env: self.env.deep_view(),
            notes: self.notes.deep_view(),
        }
    }
}

// ---------------------------------------------------------------------------
// Counting problems
// ---------------------------------------------------------------------------

/// The libraries that were not found at all.
pub open spec fn missing_among(libraries: Seq<LibraryView>) -> Seq<LibraryView>
    decreases libraries.len(),
{
    if libraries.len() == 0 {
        Seq::empty()
    } else {
        let rest = missing_among(libraries.drop_last());
        if libraries.last().resolution is Missing {
            rest.push(libraries.last())
        } else {
            rest
        }
    }
}

/// The libraries that cannot be used.
pub open spec fn unusable_among(libraries: Seq<LibraryView>) -> Seq<LibraryView>
    decreases libraries.len(),
{
    if libraries.len() == 0 {
        Seq::empty()
    } else {
        let rest = unusable_among(libraries.drop_last());
        if libraries.last().resolution is Found {
            rest
        } else {
            rest.push(libraries.last())
        }
    }
}

/// One where the condition holds.
pub open spec fn one_if(condition: bool) -> nat {
    if condition {
        1
    } else {
        0
    }
}

impl AnalysisView {
    /// Something can be said about the file.
    pub open spec fn analyzable(self) -> bool {
        !(self.kind is NotElf)
    }

    /// The problems of the file itself, before any library is looked for.
    pub open spec fn own_problems(self) -> nat {
        one_if(self.not_a_program is Some) + one_if(
            self.arch matches Some(arch) && !arch.compatible,
        ) + one_if(self.permissions matches Some(p) && !p.executable) + one_if(
            self.interpreter matches Some(i) && !i.works(),
        )
    }

    /// How many concrete problems there are.
    pub open spec fn problems(self) -> nat {
        self.own_problems() + unusable_among(self.libraries).len() + self.unresolved.len()
            + self.version_problems.len()
    }

    /// `0` = nothing wrong, `1` = problems found, `2` = could not diagnose.
    pub open spec fn code(self) -> u8 {
        if !self.analyzable() {
            2
        } else if self.problems() > 0 {
            1
        } else {
            0
        }
    }
}

impl Analysis {
    /// True when `why` understood the file well enough to say something.
    pub fn is_analyzable(&self) -> (r: bool)
        ensures
            r == self.deep_view().analyzable(),
    {
        match self.kind {
            TargetKind::NotElf { .. } => false,
            _ => true,
        }
    }

    /// Libraries the loader would not be able to find.
    pub fn missing_libraries(&self) -> (r: Vec<&LibraryFinding>)
        ensures
            r.deep_view() == missing_among(self.deep_view().libraries),
    {
        let ghost all = self.libraries.deep_view();
        let mut out: Vec<&LibraryFinding> = Vec::new();
        let mut i: usize = 0;
        assert(all.take(0) =~= Seq::<LibraryView>::empty());
        assert(out.deep_view() =~= Seq::<LibraryView>::empty());
        while i < self.libraries.len()
            invariant
                i <= self.libraries@.len(),
                all == self.libraries.deep_view(),
                out.deep_view() == missing_among(all.take(i as int)),
            decreases self.libraries@.len() - i,
        {
            let ghost so_far = out.deep_view();
            assert(all.take(i + 1).drop_last() =~= all.take(i as int));
            assert(all[i as int] == self.libraries@[i as int].deep_view());
            match self.libraries[i].resolution {
                LibResolution::Missing => {
                    out.push(&self.libraries[i]);
                    assert(out.deep_view() =~= so_far.push(all[i as int]));
                },
                _ => {},
            }
            i += 1;
        }
        assert(all.take(i as int) =~= all);
        out
    }

    /// Libraries that cannot be used: missing, or present but wrong for this
    /// machine.
    pub fn unusable_libraries(&self) -> (r: Vec<&LibraryFinding>)
        ensures
            r.deep_view() == unusable_among(self.deep_view().libraries),
    {
        let ghost all = self.libraries.deep_view();
        let mut out: Vec<&LibraryFinding> = Vec::new();
        let mut i: usize = 0;
        assert(all.take(0) =~= Seq::<LibraryView>::empty());
        assert(out.deep_view() =~= Seq::<LibraryView>::empty());
        while i < self.libraries.len()
            invariant
                i <= self.libraries@.len(),
                all == self.libraries.deep_view(),
                out.deep_view() == unusable_among(all.take(i as int)),
            decreases self.libraries@.len() - i,
        {
            let ghost so_far = out.deep_view();
            assert(all.take(i + 1).drop_last() =~= all.take(i as int));
            assert(all[i as int] == self.libraries@[i as int].deep_view());
            match self.libraries[i].resolution {
                LibResolution::Found(_) => {},
                _ => {
                    out.push(&self.libraries[i]);
                    assert(out.deep_view() =~= so_far.push(all[i as int]));
                },
            }
            i += 1;
        }
        assert(all.take(i as int) =~= all);
        out
    }

    /// The number of concrete problems found, or the largest number there is.
    pub fn problem_count(&self) -> (r: usize)
        ensures
            self.deep_view().problems() <= usize::MAX ==> r == self.deep_view().problems(),
            self.deep_view().problems() > usize::MAX ==> r == usize::MAX,
    {
        let mut count: usize = 0;
        if self.not_a_program.is_some() {
            count += 1;
        }
        match &self.arch {
            Some(arch) => {
                if !arch.compatible {
                    count += 1;
                }
            },
            None => {},
        }
        match &self.permissions {
            Some(permissions) => {
                if !permissions.executable {
                    count += 1;
                }
            },
            None => {},
        }
        match &self.interpreter {
            Some(interpreter) => {
                if !interpreter.exists || !interpreter.executable || interpreter.problem.is_some() {
                    count += 1;
                }
            },
            None => {},
        }
        assert(count == self.deep_view().own_problems());
        let unusable: Vec<&LibraryFinding> = self.unusable_libraries();
        assert(unusable@.len() == unusable.deep_view().len());
        count.saturating_add(unusable.len()).saturating_add(
            self.unresolved.len(),
        ).saturating_add(self.version_problems.len())
    }

    pub fn has_failures(&self) -> (r: bool)
        ensures
            r == (self.deep_view().problems() > 0),
    {
        self.problem_count() > 0
    }

    /// `0` = nothing wrong, `1` = problems found, `2` = could not diagnose.
    pub fn exit_code(&self) -> (r: u8)
        ensures
            r == self.deep_view().code(),
    {
        if !self.is_analyzable() {
            2
        } else if self.has_failures() {
            1
        } else {
            0
        }
    }
}

/// Every library is unusable where it was not found, and only there.
proof fn lemma_unusable(libraries: Seq<LibraryView>)
    ensures
        unusable_among(libraries).len() == 0 <==> forall|i: int|
            0 <= i < libraries.len() ==> (#[trigger] libraries[i]).resolution is Found,
        missing_among(libraries).len() <= unusable_among(libraries).len(),
    decreases libraries.len(),
{
    if libraries.len() > 0 {
        let front = libraries.drop_last();
        lemma_unusable(front);
        if unusable_among(libraries).len() == 0 {
            assert forall|i: int| 0 <= i < libraries.len() implies (
            #[trigger] libraries[i]).resolution is Found by {
                if i < front.len() {
                    assert(front[i] == libraries[i]);
                }
            }
        } else if libraries.last().resolution is Found {
            let i = choose|i: int|
                0 <= i < front.len() && !((#[trigger] front[i]).resolution is Found);
            assert(libraries[i] == front[i]);
        } else {
            assert(!(libraries[libraries.len() - 1].resolution is Found));
        }
    }
}

/// Where libraries are counted as unusable, some library was not found.
pub proof fn some_library_is_unusable(libraries: Seq<LibraryView>)
    requires
        unusable_among(libraries).len() > 0,
    ensures
        exists|i: int|
            0 <= i < libraries.len() && !((#[trigger] libraries[i]).resolution is Found),
{
    lemma_unusable(libraries);
}

/// The exit status is `0` exactly where the file was understood, is a program
/// that this machine can start, and every library, symbol and version it needs
/// is there.
pub proof fn a_clean_exit_means_no_problem(a: AnalysisView)
    ensures
        a.code() == 0 <==> {
            &&& a.analyzable()
            &&& a.not_a_program is None
            &&& a.arch matches Some(arch) ==> arch.compatible
            &&& a.permissions matches Some(p) ==> p.executable
            &&& a.interpreter matches Some(i) ==> i.works()
            &&& forall|i: int|
                0 <= i < a.libraries.len() ==> (#[trigger] a.libraries[i]).resolution is Found
            &&& a.unresolved.len() == 0
            &&& a.version_problems.len() == 0
        },
        a.code() == 2 <==> a.kind is NotElf,
{
    lemma_unusable(a.libraries);
}

} // verus!
