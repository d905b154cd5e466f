//! What the machine makes of a program before any library is looked for.

use vstd::prelude::*;
use super::{
    ArchFinding, ArchView, EnvFinding, EnvView, InterpreterFinding, InterpreterProblem,
    InterpreterView, PermissionFinding, PermissionView, ProblemView, Status,
};
use crate::elf;
use crate::elf::{Class, ElfFile, ElfType, ElfView};
use crate::path;
use crate::resolve;
use crate::resolve::ElfIdentity;
use crate::text;

verus! {

// ---------------------------------------------------------------------------
// Architecture
// ---------------------------------------------------------------------------

/// Machine pairs whose host CPU can execute the target's code directly: x86-64
/// runs i386, AArch64 runs AArch32, PowerPC64 runs 32-bit PowerPC.
pub open spec fn compatible_pair(host: u16, target: u16) -> bool {
    ||| host == 0x003e && target == 0x0003
    ||| host == 0x00b7 && target == 0x0028
    ||| host == 0x0015 && target == 0x0014
}

/// Machine pairs whose host CPU can execute the target's code directly.
pub fn runs_compatibly(host: u16, target: u16) -> (r: bool)
    ensures
        r == compatible_pair(host, target),
{
    match (host, target) {
        (0x003e, 0x0003) => true,
        (0x00b7, 0x0028) => true,
        (0x0015, 0x0014) => true,
        _ => false,
    }
}

/// A target can run on a host. On an unknown host, nothing is held against it.
pub open spec fn can_run(host: Option<u16>, host_bits: Option<u32>, machine: u16, bits: u32) -> bool {
    match host {
        None => true,
        Some(host_machine) => (host_bits matches Some(width) ==> bits <= width) && (host_machine
            == machine || compatible_pair(host_machine, machine)),
    }
}

/// A target has the machine and the word size of the host.
pub open spec fn is_exact(host: Option<u16>, host_bits: Option<u32>, machine: u16, bits: u32) -> bool {
    host == Some(machine) && host_bits == Some(bits)
}

/// Decides whether a target can run on a host, and whether it matches exactly.
///
/// A target wider than the host process can never run, even when `e_machine` is
/// shared across word sizes (MIPS and RISC-V use one value for both 32- and
/// 64-bit). Narrower targets may run through compatibility support; the
/// interpreter check catches a missing loader.
pub fn arch_compatibility(
    host: Option<u16>,
    host_bits: Option<u32>,
    machine: u16,
    bits: u32,
) -> (r: (bool, bool))
    ensures
        r == (can_run(host, host_bits, machine, bits), is_exact(host, host_bits, machine, bits)),
{
    let same_machine: bool = match host {
        Some(host_machine) => host_machine == machine,
        None => false,
    };
    let same_width: bool = match host_bits {
        Some(host_width) => host_width == bits,
        None => false,
    };
    let compatible: bool = match host {
        Some(host_machine) => {
            let width_ok: bool = match host_bits {
                Some(host_width) => bits <= host_width,
                None => true,
            };
            width_ok && (host_machine == machine || runs_compatibly(host_machine, machine))
        },
        None => true,
    };
    (compatible, same_machine && same_width)
}

/// An exact match can run.
pub proof fn an_exact_match_can_run(
    host: Option<u16>,
    host_bits: Option<u32>,
    machine: u16,
    bits: u32,
)
    requires
        is_exact(host, host_bits, machine, bits),
    ensures
        can_run(host, host_bits, machine, bits),
{
}

/// A target wider than a known host cannot run, whatever its machine.
pub proof fn a_wider_target_cannot_run(host: u16, host_bits: u32, machine: u16, bits: u32)
    requires
        bits > host_bits,
    ensures
        !can_run(Some(host), Some(host_bits), machine, bits),
{
}

/// What holds of an object on a host of the given architecture.
pub open spec fn arch_of(elf: ElfView, arch: Seq<char>) -> ArchView {
    let host = elf::machine_of_arch(arch);
    let host_bits = match host {
        Some(_) => Some(usize::BITS),
        None => None,
    };
    ArchView {
        name: elf::machine_text(elf.machine),
        class: elf.class,
        host_name: match host {
            Some(machine) => Some(elf::machine_text(machine)),
            None => None,
        },
        host_bits,
        compatible: can_run(host, host_bits, elf.machine, elf.class.width()),
        exact: is_exact(host, host_bits, elf.machine, elf.class.width()),
    }
}

/// Compares an object with the host, whose architecture goes by `arch`.
pub fn arch_finding(elf: &ElfFile, arch: &str) -> (r: ArchFinding)
    ensures
        r.deep_view() == arch_of(elf.deep_view(), arch@),
{
    let host: Option<u16> = elf::host_machine(arch);
    let host_bits: Option<u32> = match host {
        Some(_) => Some(usize::BITS),
        None => None,
    };
    let host_name: Option<&'static str> = match host {
        Some(machine) => Some(elf::machine_name(machine)),
        None => None,
    };
    let (compatible, exact): (bool, bool) = arch_compatibility(
        host,
        host_bits,
        elf.machine,
        elf.class.bits(),
    );
    ArchFinding {
        name: elf::machine_name(elf.machine),
        class: elf.class,
        host_name,
        host_bits,
        compatible,
        exact,
    }
}

// ---------------------------------------------------------------------------
// Permissions
// ---------------------------------------------------------------------------

/// What the file system says of a file.
#[derive(Debug, Clone, Copy, PartialEq, Eq, Structural)]
pub struct FileFacts {
    /// A regular file, not a directory or a device.
    pub is_file: bool,
    pub mode: u32,
}

impl FileFacts {
    /// Some execute bit is set.
    pub open spec fn runs(self) -> bool {
        self.mode & 0o111 != 0
    }
}

/// A file is there, and some execute bit is set.
pub open spec fn runs(facts: Option<FileFacts>) -> bool {
    facts matches Some(f) && f.runs()
}

/// Whether the file has any execute bit set.
pub fn is_executable(facts: Option<FileFacts>) -> (r: bool)
    ensures
        r == runs(facts),
{
    match facts {
        Some(f) => f.mode & 0o111 != 0,
        None => false,
    }
}

/// Whether a file may be executed, where the file system tells.
pub open spec fn permissions_of(path: Seq<char>, facts: Option<FileFacts>) -> Option<
    PermissionView,
> {
    match facts {
        None => None,
        Some(f) => Some(
            PermissionView { path, executable: f.runs(), mode: f.mode & 0o7777 },
        ),
    }
}

pub fn permission_finding(path: &str, facts: Option<FileFacts>) -> (r: Option<PermissionFinding>)
    ensures
        r.deep_view() == permissions_of(path@, facts),
{
    match facts {
        None => None,
        Some(f) => {
            let mode: u32 = f.mode & 0o7777;
            let m: u32 = f.mode;
            assert((m & 0o7777) & 0o111 == m & 0o111) by (bit_vector);
            Some(PermissionFinding { path: path.to_owned(), executable: mode & 0o111 != 0, mode })
        },
    }
}

// ---------------------------------------------------------------------------
// Interpreters
// ---------------------------------------------------------------------------

/// The places where an interpreter may stand: the path itself, or, where it is
/// resolved through `PATH`, the command in each directory of `PATH`.
pub open spec fn interpreter_places(
    command: Seq<char>,
    via_path: bool,
    path_var: Option<Seq<char>>,
) -> Seq<Seq<char>> {
    if !via_path {
        seq![command]
    } else if command.len() == 0 {
        Seq::empty()
    } else if command.contains('/') {
        seq![command]
    } else {
        match path_var {
            None => Seq::empty(),
            Some(value) => resolve::in_each(text::split_on(value, ':'), command),
        }
    }
}

/// The places where an interpreter may stand.
pub fn interpreter_candidates(command: &str, via_path: bool, path_var: Option<&str>) -> (r: Vec<
    String,
>)
    ensures
        r.deep_view() == interpreter_places(command@, via_path, path_var.deep_view()),
{
    let mut out: Vec<String> = Vec::new();
    assert(out.deep_view() =~= Seq::<Seq<char>>::empty());
    let chars: Vec<char> = text::chars_of(command);
    if !via_path || (chars.len() > 0 && text::has_char(chars.as_slice(), '/')) {
        out.push(command.to_owned());
        assert(out.deep_view() =~= seq![command@]);
        return out;
    }
    if chars.len() == 0 {
        return out;
    }
    match path_var {
        None => out,
        Some(value) => {
            let value: Vec<char> = text::chars_of(value);
            let dirs: Vec<Vec<char>> = text::split_chars(value.as_slice(), ':');
            let ghost all = resolve::in_each(dirs.deep_view(), command@);
            let mut i: usize = 0;
            assert(out.deep_view() =~= all.take(0));
            while i < dirs.len()
                invariant
                    i <= dirs@.len(),
                    all == resolve::in_each(dirs.deep_view(), command@),
                    out.deep_view() == all.take(i as int),
                decreases dirs@.len() - i,
            {
                let ghost so_far = out.deep_view();
                let dir: String = text::string_of(dirs[i].as_slice());
                assert(dirs.deep_view()[i as int] =~= dirs@[i as int]@);
                let place: String = path::joined(dir.as_str(), command);
                let ghost added = place@;
                assert(added == all[i as int]);
                out.push(place);
                assert(out.deep_view() =~= so_far.push(added));
                i += 1;
                assert(out.deep_view() =~= all.take(i as int));
            }
            assert(all.take(i as int) =~= all);
            out
        },
    }
}

/// The places that hold a regular file that may be executed; nothing stands
/// where nobody looked.
pub open spec fn startable(seen: Seq<Option<FileFacts>>) -> spec_fn(int) -> bool {
    |i: int| 0 <= i < seen.len() && (seen[i] matches Some(f) && f.is_file && f.runs())
}

/// What is known of an interpreter, by what stands in its places.
pub open spec fn interpreter_found(
    command: Seq<char>,
    via_path: bool,
    path_var: Option<Seq<char>>,
    seen: Seq<Option<FileFacts>>,
) -> InterpreterView {
    let places = interpreter_places(command, via_path, path_var);
    if via_path {
        match resolve::first_below(places.len() as int, startable(seen)) {
            Some(i) => InterpreterView {
                path: places[i],
                exists: true,
                executable: true,
                problem: None,
            },
            None => InterpreterView {
                path: command,
                exists: false,
                executable: false,
                problem: None,
            },
        }
    } else {
        let facts = if seen.len() > 0 {
            seen[0]
        } else {
            None
        };
        InterpreterView {
            path: command,
            exists: facts is Some,
            executable: runs(facts),
            problem: None,
        }
    }
}

/// Resolves a command through the places of `PATH`, the way a shell would.
fn find_on_path(places: &Vec<String>, seen: &[Option<FileFacts>]) -> (r: Option<usize>)
    ensures
        r is Some <==> resolve::first_below(places@.len() as int, startable(seen@)) is Some,
        r matches Some(i) ==> i < places@.len() && resolve::first_below(
            places@.len() as int,
            startable(seen@),
        ) == Some(i as int),
{
    let mut i: usize = 0;
    while i < places.len()
        invariant
            i <= places@.len(),
            resolve::first_below(i as int, startable(seen@)) is None,
        decreases places@.len() - i,
    {
        if i < seen.len() {
            let here: Option<FileFacts> = seen[i];
            match here {
                Some(f) => {
                    if f.is_file && is_executable(Some(f)) {
                        proof {
                            resolve::lemma_first_stays(
                                i + 1,
                                places@.len() as int,
                                startable(seen@),
                            );
                        }
                        return Some(i);
                    }
                },
                None => {},
            }
        }
        i += 1;
    }
    None
}

/// What is known of an interpreter. `seen` tells what stands at each of its
/// [candidates](interpreter_candidates).
pub fn interpreter_finding(
    command: &str,
    via_path: bool,
    path_var: Option<&str>,
    seen: &[Option<FileFacts>],
) -> (r: InterpreterFinding)
    ensures
        r.deep_view() == interpreter_found(command@, via_path, path_var.deep_view(), seen@),
{
    if via_path {
        let places: Vec<String> = interpreter_candidates(command, via_path, path_var);
        return match find_on_path(&places, seen) {
            Some(i) => InterpreterFinding {
                path: places[i].clone(),
                exists: true,
                executable: true,
                problem: None,
            },
            None => InterpreterFinding {
                path: command.to_owned(),
                exists: false,
                executable: false,
                problem: None,
            },
        };
    }
    let facts: Option<FileFacts> = if seen.len() > 0 {
        seen[0]
    } else {
        None
    };
    InterpreterFinding {
        path: command.to_owned(),
        exists: facts.is_some(),
        executable: is_executable(facts),
        problem: None,
    }
}

/// The architecture mismatch between a program and its loader, if any.
pub open spec fn mismatch(machine: u16, class: Class, loader: ElfIdentity) -> Option<
    (Seq<char>, Seq<char>),
> {
    if loader.machine != machine || loader.class != class {
        Some((elf::machine_text(loader.machine), elf::machine_text(machine)))
    } else {
        None
    }
}

/// Names the architecture mismatch between a program and its loader, if any.
pub fn interpreter_arch_mismatch(
    program_machine: u16,
    program_class: Class,
    loader: &ElfIdentity,
) -> (r: Option<(&'static str, &'static str)>)
    ensures
        r.deep_view() == mismatch(program_machine, program_class, *loader),
{
    if loader.machine != program_machine || loader.class != program_class {
        Some((elf::machine_name(loader.machine), elf::machine_name(program_machine)))
    } else {
        None
    }
}

/// Why a file cannot be the loader of a program, if it cannot.
pub open spec fn loader_problem(
    program: ElfView,
    path: Seq<char>,
    content: Result<Seq<u8>, Seq<char>>,
) -> Option<ProblemView> {
    match elf::parsed_file(path, content) {
        Err(error) => Some(ProblemView::NotLoadable(error.text())),
        Ok(loader) => if !(loader.etype is Executable || loader.etype is Shared) {
            Some(
                ProblemView::NotLoadable(
                    "it is a "@ + loader.kind_text() + ", which cannot be used as a loader"@,
                ),
            )
        } else {
            match mismatch(program.machine, program.class, resolve::identity_of(loader)) {
                Some((found, wanted)) => Some(ProblemView::WrongArchitecture { found, wanted }),
                None => None,
            }
        },
    }
}

/// Checks that a `PT_INTERP` target is an ELF object the kernel can load, of
/// the same class and machine as the program.
///
/// Reading just the identity is not enough: an executable text file or a
/// truncated ELF would pass that check but is rejected by the kernel.
pub fn interpreter_problem(program: &ElfFile, path: &str, content: &Result<Vec<u8>, String>) -> (r:
    Option<InterpreterProblem>)
    ensures
        r.deep_view() == loader_problem(program.deep_view(), path@, elf::content_of(*content)),
{
    match ElfFile::parse(path, content) {
        Ok(loader) => {
            let loadable: bool = match loader.etype {
                ElfType::Executable => true,
                ElfType::Shared => true,
                _ => false,
            };
            if !loadable {
                let mut reason: String = String::new();
                reason.append("it is a ");
                reason.append(loader.kind());
                reason.append(", which cannot be used as a loader");
                assert(reason@ =~= "it is a "@ + loader.deep_view().kind_text()
                    + ", which cannot be used as a loader"@);
                return Some(InterpreterProblem::NotLoadable(reason));
            }
            let identity: ElfIdentity = ElfIdentity::of(&loader);
            match interpreter_arch_mismatch(program.machine, program.class, &identity) {
                Some((found, wanted)) => Some(
                    InterpreterProblem::WrongArchitecture { found, wanted },
                ),
                None => None,
            }
        },
        Err(error) => Some(InterpreterProblem::NotLoadable(error.message())),
    }
}

/// A loader that the program can use is an ELF object of the program's class
/// and machine.
pub proof fn a_usable_loader_matches_the_program(
    program: ElfView,
    path: Seq<char>,
    content: Result<Seq<u8>, Seq<char>>,
)
    requires
        loader_problem(program, path, content) is None,
    ensures
        elf::parsed_file(path, content) matches Ok(loader) && loader.machine == program.machine
            && loader.class == program.class,
{
}

// ---------------------------------------------------------------------------
// Environment
// ---------------------------------------------------------------------------

/// The variables that change how programs start.
#[derive(Debug, Clone)]
pub struct Environment {
    pub library_path: Option<String>,
    pub preload: Option<String>,
    pub debug: Option<String>,
}

/// What an [`Environment`] holds.
pub struct EnvironmentView {
    pub library_path: Option<Seq<char>>,
    pub preload: Option<Seq<char>>,
    pub debug: Option<Seq<char>>,
}

impl DeepView for Environment {
    type V = EnvironmentView;

    open spec fn deep_view(&self) -> EnvironmentView {
        EnvironmentView {
            library_path: self.library_path.deep_view(),
            preload: self.preload.deep_view(),
            debug: self.debug.deep_view(),
        }
    }
}

/// What is said of one variable; nothing where it is unset or empty.
pub open spec fn env_note(
    variable: Seq<char>,
    value: Option<Seq<char>>,
    note: Seq<char>,
    status: Status,
) -> Seq<EnvView> {
    match value {
        Some(v) => if v.len() > 0 {
            seq![EnvView { variable, value: v, note, status }]
        } else {
            Seq::empty()
        },
        None => Seq::empty(),
    }
}

/// What is said of the environment.
pub open spec fn env_notes(env: EnvironmentView) -> Seq<EnvView> {
    env_note(
        "LD_LIBRARY_PATH"@,
        env.library_path,
        "overrides the system library search path; a stale entry can load the wrong library"@,
        Status::Warn,
    ) + env_note(
        "LD_PRELOAD"@,
        env.preload,
        "injects extra libraries into the process; a broken preload is a common launch failure"@,
        Status::Warn,
    ) + env_note(
        "LD_DEBUG"@,
        env.debug,
        "dynamic loader tracing is enabled"@,
        Status::Info,
    )
}

/// Appends what is said of one variable.
fn push_env(
    out: &mut Vec<EnvFinding>,
    variable: &str,
    value: &Option<String>,
    note: &str,
    status: Status,
)
    ensures
        final(out).deep_view() == old(out).deep_view() + env_note(
            variable@,
            value.deep_view(),
            note@,
            status,
        ),
{
    let ghost before = out.deep_view();
    match value {
        Some(v) => {
            if !v.as_str().is_empty() {
                let finding: EnvFinding = EnvFinding {
                    variable: variable.to_owned(),
                    value: v.clone(),
                    note: note.to_owned(),
                    status,
                };
                let ghost added = finding.deep_view();
                out.push(finding);
                assert(out.deep_view() =~= before.push(added));
            }
        },
        None => {},
    }
    assert(out.deep_view() =~= before + env_note(variable@, value.deep_view(), note@, status));
}

/// Notes the variables that change how programs start.
pub fn env_findings(env: &Environment) -> (r: Vec<EnvFinding>)
    ensures
        r.deep_view() == env_notes(env.deep_view()),
{
    let mut findings: Vec<EnvFinding> = Vec::new();
    assert(findings.deep_view() =~= Seq::<EnvView>::empty());
    push_env(
        &mut findings,
        "LD_LIBRARY_PATH",
        &env.library_path,
        "overrides the system library search path; a stale entry can load the wrong library",
        Status::Warn,
    );
    push_env(
        &mut findings,
        "LD_PRELOAD",
        &env.preload,
        "injects extra libraries into the process; a broken preload is a common launch failure",
        Status::Warn,
    );
    push_env(
        &mut findings,
        "LD_DEBUG",
        &env.debug,
        "dynamic loader tracing is enabled",
        Status::Info,
    );
    assert(findings.deep_view() =~= env_notes(env.deep_view()));
    findings
}

/// A variable is flagged exactly where it is set to something.
pub proof fn set_variables_are_flagged(env: EnvironmentView)
    ensures
        ({
            let set = |value: Option<Seq<char>>| value matches Some(v) && v.len() > 0;
            let flagged = |variable: Seq<char>|
                exists|i: int|
                    0 <= i < env_notes(env).len() && (#[trigger] env_notes(env)[i]).variable
                        == variable;
            &&& flagged("LD_LIBRARY_PATH"@) <==> set(env.library_path)
            &&& flagged("LD_PRELOAD"@) <==> set(env.preload)
            &&& flagged("LD_DEBUG"@) <==> set(env.debug)
        }),
{
    reveal_strlit("LD_LIBRARY_PATH");
    reveal_strlit("LD_PRELOAD");
    reveal_strlit("LD_DEBUG");
    let notes = env_notes(env);
    let a = env_note(
        "LD_LIBRARY_PATH"@,
        env.library_path,
        "overrides the system library search path; a stale entry can load the wrong library"@,
        Status::Warn,
    );
    let b = env_note(
        "LD_PRELOAD"@,
        env.preload,
        "injects extra libraries into the process; a broken preload is a common launch failure"@,
        Status::Warn,
    );
    let c = env_note(
        "LD_DEBUG"@,
        env.debug,
        "dynamic loader tracing is enabled"@,
        Status::Info,
    );
    assert(notes == a + b + c);
    assert("LD_LIBRARY_PATH"@.len() == 15 && "LD_PRELOAD"@.len() == 10 && "LD_DEBUG"@.len() == 8);
    if a.len() > 0 {
        assert(notes[0] == a[0]);
    }
    if b.len() > 0 {
        assert(notes[a.len() as int] == b[0]);
    }
    if c.len() > 0 {
        assert(notes[(a.len() + b.len()) as int] == c[0]);
    }
}

} // verus!
