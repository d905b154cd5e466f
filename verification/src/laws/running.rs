//! Whether a program can be started: its kind, the machine it runs on, its
//! permissions, its interpreter and the environment.

use vstd::prelude::*;
use crate::analyze::host;
use crate::analyze::host::{EnvironmentView, FileFacts};
use crate::analyze::script;
use crate::analyze::target;
use crate::analyze::target::{InspectionView, TargetView};
use crate::analyze::{AnalysisView, EnvView, KindView, ProblemView, Status};
use crate::elf;
use crate::elf::{Class, ElfErrorView, ElfType, ElfView};
use crate::path;
use crate::resolve;
use crate::text;

verus! {

// ---------------------------------------------------------------------------
// Kinds and machines
// ---------------------------------------------------------------------------

/// A program is what names an interpreter, and a static position-independent
/// executable what names none but is marked as one, or has an entry point and no
/// name as a library.
pub proof fn objects_are_told_apart(o: ElfView)
    ensures
        ({
            let marked = o.flags_1 & 0x0800_0000 != 0;
            let starts = o.soname is None && o.entry != 0;
            &&& o.etype == ElfType::Executable && o.interpreter is Some ==> o.program()
                && o.runnable() && o.kind_text() == "dynamically linked executable"@
            &&& o.etype == ElfType::Executable && o.interpreter is None && o.has_dynamic
                ==> !o.program() && o.runnable() && o.kind_text()
                == "executable without an interpreter"@
            &&& o.etype == ElfType::Executable && o.interpreter is None && !o.has_dynamic
                ==> !o.program() && o.runnable() && o.kind_text() == "statically linked executable"@
            &&& o.etype == ElfType::Shared && o.interpreter is Some ==> o.program() && o.runnable()
                && o.kind_text() == "position-independent executable (PIE)"@
            &&& o.etype == ElfType::Shared && o.interpreter is None && (marked || starts)
                ==> !o.program() && o.runnable() && o.kind_text()
                == "static position-independent executable (PIE)"@
            &&& o.etype == ElfType::Shared && o.interpreter is None && !marked && !starts
                && o.soname is Some ==> !o.program() && !o.runnable() && o.kind_text()
                == "shared library"@
            &&& o.etype == ElfType::Shared && o.interpreter is None && !marked && !starts
                && o.soname is None ==> !o.program() && !o.runnable() && o.kind_text()
                == "position-independent object"@
            &&& o.etype == ElfType::Relocatable ==> !o.program() && !o.runnable() && o.kind_text()
                == "relocatable object"@
            &&& o.etype == ElfType::Core ==> !o.program() && !o.runnable() && o.kind_text()
                == "core dump"@
            &&& o.etype is Other ==> !o.program() && !o.runnable() && o.kind_text()
                == "ELF object"@
        }),
{
}

/// A machine of the list has its name, and any other has none.
pub proof fn machines_have_names(machine: u16)
    ensures
        machine == 3 ==> elf::machine_text(machine) == "i386"@,
        machine == 8 ==> elf::machine_text(machine) == "MIPS"@,
        machine == 20 ==> elf::machine_text(machine) == "PowerPC"@,
        machine == 21 ==> elf::machine_text(machine) == "PowerPC64"@,
        machine == 22 ==> elf::machine_text(machine) == "s390"@,
        machine == 40 ==> elf::machine_text(machine) == "ARM"@,
        machine == 42 ==> elf::machine_text(machine) == "SuperH"@,
        machine == 50 ==> elf::machine_text(machine) == "IA-64"@,
        machine == 62 ==> elf::machine_text(machine) == "x86-64"@,
        machine == 183 ==> elf::machine_text(machine) == "AArch64"@,
        machine == 243 ==> elf::machine_text(machine) == "RISC-V"@,
        machine == 258 ==> elf::machine_text(machine) == "LoongArch"@,
        machine < 3 || machine > 258 || (3 < machine < 8) || (8 < machine < 20) || (22 < machine
            < 40) || machine == 41 || (42 < machine < 50) || (50 < machine < 62) || (62 < machine
            < 183) || (183 < machine < 243) || (243 < machine < 258) ==> elf::machine_text(machine)
            == "unknown architecture"@,
{
}

/// A host is known by the name of its architecture.
pub proof fn hosts_are_known_by_their_names(arch: Seq<char>)
    ensures
        arch == "x86"@ ==> elf::machine_of_arch(arch) == Some(3u16),
        arch == "x86_64"@ ==> elf::machine_of_arch(arch) == Some(62u16),
        arch == "arm"@ ==> elf::machine_of_arch(arch) == Some(40u16),
        arch == "aarch64"@ ==> elf::machine_of_arch(arch) == Some(183u16),
        arch == "riscv32"@ || arch == "riscv64"@ ==> elf::machine_of_arch(arch) == Some(243u16),
        arch == "powerpc"@ ==> elf::machine_of_arch(arch) == Some(20u16),
        arch == "powerpc64"@ ==> elf::machine_of_arch(arch) == Some(21u16),
        arch == "s390x"@ ==> elf::machine_of_arch(arch) == Some(22u16),
        arch == "loongarch64"@ ==> elf::machine_of_arch(arch) == Some(258u16),
        arch == "mips"@ || arch == "mips64"@ ==> elf::machine_of_arch(arch) == Some(8u16),
        elf::machine_of_arch(arch) is Some ==> arch == "x86"@ || arch == "x86_64"@ || arch
            == "arm"@ || arch == "aarch64"@ || arch == "riscv32"@ || arch == "riscv64"@ || arch
            == "powerpc"@ || arch == "powerpc64"@ || arch == "s390x"@ || arch == "loongarch64"@
            || arch == "mips"@ || arch == "mips64"@,
{
    reveal_strlit("x86");
    reveal_strlit("x86_64");
    reveal_strlit("arm");
    reveal_strlit("aarch64");
    reveal_strlit("riscv32");
    reveal_strlit("riscv64");
    reveal_strlit("powerpc");
    reveal_strlit("powerpc64");
    reveal_strlit("s390x");
    reveal_strlit("loongarch64");
    reveal_strlit("mips");
    reveal_strlit("mips64");
    assert("x86"@.len() == 3 && "x86"@[0] == 'x');
    assert("x86_64"@.len() == 6 && "x86_64"@[0] == 'x');
    assert("arm"@.len() == 3 && "arm"@[0] == 'a');
    assert("aarch64"@.len() == 7 && "aarch64"@[0] == 'a');
    assert("riscv32"@.len() == 7 && "riscv32"@[0] == 'r');
    assert("riscv64"@.len() == 7 && "riscv64"@[0] == 'r');
    assert("powerpc"@.len() == 7 && "powerpc"@[0] == 'p');
    assert("powerpc64"@.len() == 9 && "s390x"@.len() == 5 && "loongarch64"@.len() == 11);
    assert("mips"@.len() == 4 && "mips64"@.len() == 6 && "mips64"@[0] == 'm');
}

/// A host is called by the name of its machine, as far as it is known.
pub proof fn hosts_are_called_by_their_machines(arch: Seq<char>)
    ensures
        elf::machine_of_arch(arch) matches Some(machine) ==> elf::host_text(arch)
            == elf::machine_text(machine),
        elf::machine_of_arch(arch) is None ==> elf::host_text(arch) == "this machine"@,
{
}

/// Every host runs what is built for its own machine and is not wider than it;
/// a 64-bit host runs the 32-bit programs of its family as well, and not the
/// other way round.
pub proof fn hosts_run_their_own_family(host: u16, width: u32, machine: u16, bits: u32)
    ensures
        bits <= width ==> host::can_run(Some(host), Some(width), host, bits),
        bits > width ==> !host::can_run(Some(host), Some(width), machine, bits),
        host::can_run(None, Some(width), machine, bits) && host::can_run(None, None, machine, bits),
        bits <= width ==> host::can_run(Some(62), Some(width), 3, bits) && host::can_run(
            Some(183),
            Some(width),
            40,
            bits,
        ) && host::can_run(Some(21), Some(width), 20, bits),
        host::can_run(Some(host), Some(width), machine, bits) && host != machine ==> (host == 62
            && machine == 3) || (host == 183 && machine == 40) || (host == 21 && machine == 20),
        host::is_exact(Some(host), Some(width), machine, bits) <==> host == machine && width == bits,
        !host::is_exact(None, Some(width), machine, bits),
{
}

/// What is said of the architecture: its name and width, those of the host, and
/// whether the host runs it.
pub proof fn the_architecture_is_compared_with_the_host(o: ElfView, arch: Seq<char>)
    ensures
        ({
            let a = host::arch_of(o, arch);
            let bits: u32 = if o.class == Class::Elf64 {
                64
            } else {
                32
            };
            &&& a.name == elf::machine_text(o.machine) && a.class == o.class
            &&& elf::machine_of_arch(arch) is None ==> a.host_name is None && a.host_bits is None
                && a.compatible && !a.exact
            &&& elf::machine_of_arch(arch) matches Some(h) ==> a.host_name == Some(
                elf::machine_text(h),
            ) && a.host_bits == Some(usize::BITS) && a.compatible == host::can_run(
                Some(h),
                Some(usize::BITS),
                o.machine,
                bits,
            ) && a.exact == (h == o.machine && usize::BITS == bits)
        }),
{
}

// ---------------------------------------------------------------------------
// Permissions
// ---------------------------------------------------------------------------

/// A file may be executed where one of the three execute bits is set: the lowest
/// one of each of the three lowest octal digits. The permission bits are the
/// four lowest octal digits.
pub proof fn one_execute_bit_is_enough(path: Seq<char>, facts: FileFacts)
    ensures
        facts.runs() <==> facts.mode % 2 == 1 || (facts.mode / 8) % 2 == 1 || (facts.mode / 64) % 2
            == 1,
        host::permissions_of(path, None) is None,
        host::permissions_of(path, Some(facts)) matches Some(p) && p.path == path && p.executable
            == facts.runs() && p.mode == facts.mode % 4096,
{
    let m = facts.mode;
    assert((m & 0o111u32 != 0) <==> (m % 2 == 1 || (m / 8) % 2 == 1 || (m / 64) % 2 == 1))
        by (bit_vector);
    assert(m & 0o7777u32 == m % 4096) by (bit_vector);
}

// ---------------------------------------------------------------------------
// The interpreter
// ---------------------------------------------------------------------------

proof fn lemma_first(n: int, p: spec_fn(int) -> bool, i: int)
    ensures
        0 <= i < n && p(i) && (forall|k: int| 0 <= k < i ==> !#[trigger] p(k))
            ==> resolve::first_below(n, p) == Some(i),
        (forall|k: int| 0 <= k < n ==> !#[trigger] p(k)) ==> resolve::first_below(n, p) is None,
    decreases n,
{
    if n > 0 {
        lemma_first(n - 1, p, i);
    }
}

/// The place can start a program: it is a file with an execute bit.
pub open spec fn starts(seen: Option<FileFacts>) -> bool {
    seen matches Some(f) && f.is_file && f.mode & 0o111 != 0
}

/// A bare name is looked for in each directory of the path, in its order; the
/// first place with a file that may be executed is the interpreter.
pub proof fn interpreters_are_found_on_the_path(
    command: Seq<char>,
    value: Seq<char>,
    seen: Seq<Option<FileFacts>>,
    i: int,
)
    requires
        command.len() > 0,
        !command.contains('/'),
        seen.len() == text::split_on(value, ':').len(),
    ensures
        ({
            let dirs = text::split_on(value, ':');
            let found = host::interpreter_found(command, true, Some(value), seen);
            &&& 0 <= i < dirs.len() && starts(seen[i]) && (forall|k: int|
                0 <= k < i ==> !starts(#[trigger] seen[k])) ==> found.exists && found.executable
                && found.path == path::join(dirs[i], command)
            &&& (forall|k: int| 0 <= k < seen.len() ==> !starts(#[trigger] seen[k]))
                ==> !found.exists && !found.executable && found.path == command
            &&& found.problem is None
        }),
{
    let dirs = text::split_on(value, ':');
    let p = host::startable(seen);
    let n = dirs.len() as int;
    lemma_first(n, p, i);
    assert forall|k: int| 0 <= k < seen.len() implies #[trigger] p(k) == starts(seen[k]) by {}
    if 0 <= i < dirs.len() && starts(seen[i]) && (forall|k: int|
        0 <= k < i ==> !starts(#[trigger] seen[k])) {
        assert(p(i));
        assert forall|k: int| 0 <= k < i implies !#[trigger] p(k) by {
            assert(!starts(seen[k]));
        }
    }
    if forall|k: int| 0 <= k < seen.len() ==> !starts(#[trigger] seen[k]) {
        assert forall|k: int| 0 <= k < n implies !#[trigger] p(k) by {
            assert(!starts(seen[k]));
        }
    }
}

/// The places where an interpreter is looked for: each directory of the path
/// for a bare name behind `env`, and the name itself in every other case.
pub proof fn places_of_an_interpreter(command: Seq<char>, path_var: Option<Seq<char>>, i: int)
    ensures
        host::interpreter_places(command, false, path_var) == seq![command],
        command.contains('/') ==> host::interpreter_places(command, true, path_var) == seq![command],
        command.len() == 0 ==> host::interpreter_places(command, true, path_var).len() == 0,
        command.len() > 0 && !command.contains('/') && path_var is None ==> host::interpreter_places(
            command,
            true,
            path_var,
        ).len() == 0,
        command.len() > 0 && !command.contains('/') ==> (path_var matches Some(value) ==> {
            let dirs = text::split_on(value, ':');
            let places = host::interpreter_places(command, true, path_var);
            places.len() == dirs.len() && (0 <= i < dirs.len() ==> places[i] == path::join(
                dirs[i],
                command,
            ))
        }),
{
}

/// An interpreter that is named directly is there where something stands at its
/// path, and may be executed where that has an execute bit.
pub proof fn a_named_interpreter_is_looked_at(
    command: Seq<char>,
    path_var: Option<Seq<char>>,
    there: Option<FileFacts>,
)
    ensures
        ({
            let found = host::interpreter_found(command, false, path_var, seq![there]);
            &&& found.path == command && found.problem is None
            &&& found.exists == (there is Some)
            &&& found.executable == (there matches Some(f) && f.mode & 0o111 != 0)
        }),
        !host::interpreter_found(command, false, path_var, Seq::empty()).exists,
{
}

/// A loader can load a program exactly where it is an executable or a shared
/// object of the program's machine and class; what is wrong with it is told.
pub proof fn loaders_are_told_apart(
    program: ElfView,
    path: Seq<char>,
    content: Result<Seq<u8>, Seq<char>>,
)
    ensures
        ({
            let problem = host::loader_problem(program, path, content);
            &&& content matches Err(reason) ==> problem == Some(ProblemView::NotLoadable(reason))
            &&& content matches Ok(d) ==> (match elf::parsed(path, d) {
                Err(error) => problem == Some(ProblemView::NotLoadable(error.text())),
                Ok(loader) => {
                    let loads = loader.etype == ElfType::Executable || loader.etype
                        == ElfType::Shared;
                    let same = loader.machine == program.machine && loader.class == program.class;
                    &&& problem is None <==> loads && same
                    &&& !loads ==> problem == Some(
                        ProblemView::NotLoadable(
                            "it is a "@ + loader.kind_text()
                                + ", which cannot be used as a loader"@,
                        ),
                    )
                    &&& loads && !same ==> problem == Some(
                        ProblemView::WrongArchitecture {
                            found: elf::machine_text(loader.machine),
                            wanted: elf::machine_text(program.machine),
                        },
                    )
                },
            })
        }),
{
}

// ---------------------------------------------------------------------------
// The environment
// ---------------------------------------------------------------------------

/// The variable holds something.
pub open spec fn is_set(value: Option<Seq<char>>) -> bool {
    value matches Some(v) && v.len() > 0
}

/// Every variable that holds something is told with its value and what it does,
/// the library path first, the preloads next and the tracing last.
pub proof fn variables_are_told_in_order(env: EnvironmentView)
    ensures
        ({
            let notes = host::env_notes(env);
            let first: int = if is_set(env.library_path) {
                1
            } else {
                0
            };
            let second: int = if is_set(env.preload) {
                first + 1
            } else {
                first
            };
            let third: int = if is_set(env.debug) {
                second + 1
            } else {
                second
            };
            &&& notes.len() == third
            &&& is_set(env.library_path) ==> notes[0] == (EnvView {
                variable: "LD_LIBRARY_PATH"@,
                value: env.library_path->0,
                note: "overrides the system library search path; a stale entry can load the wrong library"@,
                status: Status::Warn,
            })
            &&& is_set(env.preload) ==> notes[first] == (EnvView {
                variable: "LD_PRELOAD"@,
                value: env.preload->0,
                note: "injects extra libraries into the process; a broken preload is a common launch failure"@,
                status: Status::Warn,
            })
            &&& is_set(env.debug) ==> notes[second] == (EnvView {
                variable: "LD_DEBUG"@,
                value: env.debug->0,
                note: "dynamic loader tracing is enabled"@,
                status: Status::Info,
            })
        }),
{
}

/// A failure is worse than a warning, and a warning worse than the rest; what is
/// not worse changes nothing.
pub proof fn statuses_are_ranked(s: Status)
    ensures
        s.worst(Status::Fail) == Status::Fail,
        Status::Fail.worst(s) == Status::Fail,
        s != Status::Fail ==> s.worst(Status::Warn) == Status::Warn && Status::Warn.worst(s)
            == Status::Warn,
        s.worst(Status::Fine) == s && s.worst(Status::Info) == s,
{
}

// ---------------------------------------------------------------------------
// What is looked at
// ---------------------------------------------------------------------------

/// Only the beginning of a file decides what it looks like: beyond the first 512
/// bytes nothing changes it.
pub proof fn the_beginning_decides_the_look(d: Seq<u8>)
    requires
        d.len() > 512,
    ensures
        target::look_of(d) == target::look_of(d.take(512)),
{
    assert(d.take(512).take(4) =~= d.take(4));
}

proof fn lemma_shown(c: char)
    ensures
        (!text::is_control(c) || c == '\n' || c == '\t' || c == '\r') == (c as int == 9 || c as int
            == 10 || c as int == 13 || (32 <= c as int && (c as int) < 127) || c as int >= 160),
{
}

/// What a file that is no ELF object looks like: one of text is valid UTF-8 and
/// has no control character but line feeds, tabs and carriage returns.
pub proof fn files_look_like_what_they_hold(d: Seq<u8>)
    requires
        d.len() <= 512,
    ensures
        d.len() == 0 ==> target::look_of(d) == "an empty file"@,
        d.len() >= 4 && d[0] == 0x7f && d[1] == 0x45 && d[2] == 0x4c && d[3] == 0x46
            ==> target::look_of(d) == "an ELF file that could not be parsed"@,
        d.len() > 0 && !(d.len() >= 4 && d[0] == 0x7f && d[1] == 0x45 && d[2] == 0x4c && d[3]
            == 0x46) ==> {
            let shown = vstd::utf8::decode_utf8(d);
            let plain = vstd::utf8::valid_utf8(d) && forall|i: int|
                0 <= i < shown.len() ==> {
                    let c = #[trigger] shown[i] as int;
                    c == 9 || c == 10 || c == 13 || (32 <= c < 127) || c >= 160
                };
            &&& plain ==> target::look_of(d) == "a text file"@
            &&& !plain ==> target::look_of(d) == "a binary file that is not ELF"@
        },
{
    if d.len() >= 4 {
        let first = d.take(4);
        if first == elf::magic() {
            assert(first[0] == 0x7f && first[1] == 0x45 && first[2] == 0x4c && first[3] == 0x46);
        }
        if d[0] == 0x7f && d[1] == 0x45 && d[2] == 0x4c && d[3] == 0x46 {
            assert(first =~= elf::magic());
        }
    }
    let shown = vstd::utf8::decode_utf8(d);
    assert forall|i: int| 0 <= i < shown.len() implies (!text::is_control(#[trigger] shown[i])
        || shown[i] == '\n' || shown[i] == '\t' || shown[i] == '\r') == ({
        let c = shown[i] as int;
        c == 9 || c == 10 || c == 13 || (32 <= c < 127) || c >= 160
    }) by {
        lemma_shown(shown[i]);
    }
}

/// Nothing is said of the file but what it is.
pub open spec fn says_only(a: AnalysisView, path: Seq<char>, description: Seq<char>) -> bool {
    &&& a.path == path && a.kind == (KindView::NotElf { description })
    &&& a.not_a_program is None && a.arch is None && a.permissions is None && a.interpreter is None
    &&& a.libraries.len() == 0 && a.unresolved.len() == 0 && a.version_problems.len() == 0
    &&& a.env.len() == 0 && a.notes.len() == 0
}

/// A directory is no program, and what cannot be read is an error. A file that
/// begins with `#!` is a script, one that can be parsed an ELF object, and of
/// any other it is said what it is.
pub proof fn files_are_told_apart(path: Seq<char>, reason: Seq<char>, d: Seq<u8>, canonical: Seq<char>)
    ensures
        target::inspected(path, TargetView::Directory) matches Ok(InspectionView::Settled(a))
            && says_only(a, path, "this is a directory, not a program"@),
        target::inspected(path, TargetView::Unreadable(reason)) == Err::<
            InspectionView,
            Seq<char>,
        >(reason),
        ({
            let read = target::inspected(path, TargetView::File { data: d, canonical });
            let marked = d.len() >= 2 && d[0] == '#' as int && d[1] == '!' as int;
            &&& marked ==> read == Ok::<InspectionView, Seq<char>>(
                InspectionView::Script(script::script_of(d)),
            )
            &&& !marked ==> (match elf::parsed(canonical, d) {
                Ok(object) => read == Ok::<InspectionView, Seq<char>>(InspectionView::Elf(object)),
                Err(ElfErrorView::NotElf) => read matches Ok(InspectionView::Settled(a))
                    && says_only(a, path, target::look_of(d)),
                Err(error) => read matches Ok(InspectionView::Settled(a)) && says_only(
                    a,
                    path,
                    "an ELF file that could not be parsed ("@ + error.text() + ")"@,
                ),
            })
        }),
{
}

} // verus!
