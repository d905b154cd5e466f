//! Whole programs, on a machine that exists only in these tests.

use why::analyze::host::{interpreter_candidates, Environment, FileFacts};
use why::analyze::script::analyze_script;
use why::analyze::walk::{analyze_elf, ElfFacts, Request, Walk};
use why::analyze::{
    analyze, Analysis, AnalyzeError, Inspection, InterpreterProblem, LibResolution, Status, Target,
    TargetKind,
};
use why::cli::Options;
use why::distro::{Distro, Family};
use why::elf::reader::Endian;
use why::elf::{Binding, Class, ElfError, ElfFile, ElfType, DF_1_PIE};
use why::report;
use why::resolve::{identify, CacheEntry, ElfIdentity, Probe, Resolver};

// ---------------------------------------------------------------------------
// Images
// ---------------------------------------------------------------------------

/// A symbol: name, `st_info`, `st_shndx` and version index.
type Symbol = (&'static str, u8, u16, u16);

#[derive(Clone)]
struct Image {
    class: Class,
    endian: Endian,
    etype: u16,
    machine: u16,
    entry: u64,
    interp: Option<String>,
    needed: Vec<&'static str>,
    soname: Option<&'static str>,
    rpath: Option<&'static str>,
    runpath: Option<&'static str>,
    flags_1: u64,
    symbols: Vec<Symbol>,
    needs: Vec<(&'static str, Vec<(u16, &'static str)>)>,
    defs: Vec<(u16, &'static str)>,
    dynamic: bool,
}

const GLOBAL: u8 = 0x12;
const WEAK: u8 = 0x22;

fn image() -> Image {
    Image {
        class: Class::Elf64,
        endian: Endian::Little,
        etype: 3,
        machine: 0x3e,
        entry: 0x1000,
        interp: None,
        needed: vec![],
        soname: None,
        rpath: None,
        runpath: None,
        flags_1: 0,
        symbols: vec![],
        needs: vec![],
        defs: vec![],
        dynamic: true,
    }
}

fn program() -> Image {
    Image { interp: Some("/lib64/ld.so".to_string()), ..image() }
}

struct Writer {
    bytes: Vec<u8>,
    endian: Endian,
    wide: bool,
}

impl Writer {
    fn put(&mut self, value: u64, size: usize) {
        for i in 0..size {
            let shift = match self.endian {
                Endian::Little => i,
                Endian::Big => size - 1 - i,
            };
            self.bytes.push((value >> (8 * shift)) as u8);
        }
    }

    fn word(&mut self, value: u64) {
        let size = if self.wide { 8 } else { 4 };
        self.put(value, size);
    }
}

struct Strings {
    bytes: Vec<u8>,
}

impl Strings {
    fn add(&mut self, s: &str) -> u64 {
        let at = self.bytes.len() as u64;
        self.bytes.extend_from_slice(s.as_bytes());
        self.bytes.push(0);
        at
    }
}

impl Image {
    fn writer(&self) -> Writer {
        Writer {
            bytes: vec![],
            endian: self.endian,
            wide: matches!(self.class, Class::Elf64),
        }
    }

    fn build(&self) -> Vec<u8> {
        let wide = matches!(self.class, Class::Elf64);
        let mut strtab = Strings { bytes: vec![0] };
        let mut dynamic = self.writer();
        for name in &self.needed {
            let at = strtab.add(name);
            dynamic.word(1);
            dynamic.word(at);
        }
        for (tag, value) in [(14u64, self.soname), (15, self.rpath), (29, self.runpath)] {
            if let Some(value) = value {
                let at = strtab.add(value);
                dynamic.word(tag);
                dynamic.word(at);
            }
        }
        if self.flags_1 != 0 {
            dynamic.word(0x6fff_fffb);
            dynamic.word(self.flags_1);
        }
        // DT_DEBUG, so that the table is never empty.
        dynamic.word(21);
        dynamic.word(0);
        dynamic.word(0);
        dynamic.word(0);

        let mut dynsym = self.writer();
        let mut versym = self.writer();
        for (name, info, shndx, version) in &self.symbols {
            let at = strtab.add(name);
            dynsym.put(at, 4);
            if wide {
                dynsym.put(*info as u64, 1);
                dynsym.put(0, 1);
                dynsym.put(*shndx as u64, 2);
                dynsym.put(0, 8);
                dynsym.put(0, 8);
            } else {
                dynsym.put(0, 4);
                dynsym.put(0, 4);
                dynsym.put(*info as u64, 1);
                dynsym.put(0, 1);
                dynsym.put(*shndx as u64, 2);
            }
            versym.put(*version as u64, 2);
        }

        let mut verneed = self.writer();
        for (i, (file, versions)) in self.needs.iter().enumerate() {
            let at = strtab.add(file);
            let last = i + 1 == self.needs.len();
            verneed.put(1, 2);
            verneed.put(versions.len() as u64, 2);
            verneed.put(at, 4);
            verneed.put(16, 4);
            verneed.put(if last { 0 } else { 16 + 16 * versions.len() as u64 }, 4);
            for (k, (index, name)) in versions.iter().enumerate() {
                let at = strtab.add(name);
                verneed.put(0, 4);
                verneed.put(0, 2);
                verneed.put(*index as u64, 2);
                verneed.put(at, 4);
                verneed.put(if k + 1 == versions.len() { 0 } else { 16 }, 4);
            }
        }

        let mut verdef = self.writer();
        for (i, (index, name)) in self.defs.iter().enumerate() {
            let at = strtab.add(name);
            verdef.put(1, 2);
            verdef.put(0, 2);
            verdef.put(*index as u64, 2);
            verdef.put(1, 2);
            verdef.put(0, 4);
            verdef.put(20, 4);
            verdef.put(if i + 1 == self.defs.len() { 0 } else { 28 }, 4);
            verdef.put(at, 4);
            verdef.put(0, 4);
        }

        let header_size: usize = if wide { 64 } else { 52 };
        let mut body: Vec<u8> = vec![0; header_size];
        let place = |body: &mut Vec<u8>, bytes: &[u8]| -> (u64, u64) {
            let at = body.len() as u64;
            body.extend_from_slice(bytes);
            (at, bytes.len() as u64)
        };
        let interp = self.interp.as_ref().map(|path| {
            let mut bytes = path.as_bytes().to_vec();
            bytes.push(0);
            place(&mut body, &bytes)
        });
        let mut sections: Vec<(&str, u64, (u64, u64), u64)> = vec![];
        sections.push((".dynstr", 3, place(&mut body, &strtab.bytes), 0));
        let entry_size: u64 = if wide { 24 } else { 16 };
        if self.dynamic {
            sections.push((".dynamic", 6, place(&mut body, &dynamic.bytes), 0));
        }
        sections.push((".dynsym", 11, place(&mut body, &dynsym.bytes), entry_size));
        sections.push((".gnu.version", 0x6fff_ffff, place(&mut body, &versym.bytes), 2));
        if !self.needs.is_empty() {
            sections.push((".gnu.version_r", 0x6fff_fffe, place(&mut body, &verneed.bytes), 0));
        }
        if !self.defs.is_empty() {
            sections.push((".gnu.version_d", 0x6fff_fffd, place(&mut body, &verdef.bytes), 0));
        }
        let mut names = Strings { bytes: vec![0] };
        let mut name_offsets: Vec<u64> = vec![];
        for section in &sections {
            name_offsets.push(names.add(section.0));
        }
        let own_name = names.add(".shstrtab");
        let shstrtab = place(&mut body, &names.bytes);

        let mut phdrs = self.writer();
        if let Some((offset, size)) = interp {
            phdrs.put(3, 4);
            if wide {
                phdrs.put(4, 4);
            }
            phdrs.word(offset);
            phdrs.word(offset);
            phdrs.word(offset);
            phdrs.word(size);
            phdrs.word(size);
            if !wide {
                phdrs.put(4, 4);
            }
            phdrs.word(1);
        }
        let phoff = body.len() as u64;
        body.extend_from_slice(&phdrs.bytes);

        let mut shdrs = self.writer();
        let mut section = |name: u64, kind: u64, at: (u64, u64), entsize: u64| {
            shdrs.put(name, 4);
            shdrs.put(kind, 4);
            shdrs.word(0);
            shdrs.word(0);
            shdrs.word(at.0);
            shdrs.word(at.1);
            shdrs.put(0, 4);
            shdrs.put(0, 4);
            shdrs.word(1);
            shdrs.word(entsize);
        };
        section(0, 0, (0, 0), 0);
        for (i, s) in sections.iter().enumerate() {
            section(name_offsets[i], s.1, s.2, s.3);
        }
        section(own_name, 3, shstrtab, 0);
        let shoff = body.len() as u64;
        let count = sections.len() as u64 + 2;
        body.extend_from_slice(&shdrs.bytes);

        let mut header = self.writer();
        header.bytes.extend_from_slice(b"\x7fELF");
        header.put(if wide { 2 } else { 1 }, 1);
        header.put(if matches!(self.endian, Endian::Little) { 1 } else { 2 }, 1);
        header.put(1, 1);
        header.bytes.resize(16, 0);
        header.put(self.etype as u64, 2);
        header.put(self.machine as u64, 2);
        header.put(1, 4);
        header.word(self.entry);
        header.word(phoff);
        header.word(shoff);
        header.put(0, 4);
        header.put(header_size as u64, 2);
        header.put(if wide { 56 } else { 32 }, 2);
        header.put(if self.interp.is_some() { 1 } else { 0 }, 2);
        header.put(if wide { 64 } else { 40 }, 2);
        header.put(count, 2);
        header.put(count - 1, 2);
        assert_eq!(header.bytes.len(), header_size);
        body[..header_size].copy_from_slice(&header.bytes);
        body
    }

    fn parse(&self) -> ElfFile {
        match ElfFile::parse_bytes("/opt/app/game", &self.build()) {
            Ok(elf) => elf,
            Err(error) => panic!("{}", error.message()),
        }
    }
}

// ---------------------------------------------------------------------------
// A machine
// ---------------------------------------------------------------------------

/// A file: its path, its canonical path, what it holds, and its mode.
struct File {
    path: String,
    key: String,
    data: Vec<u8>,
    mode: u32,
}

struct Machine {
    files: Vec<File>,
    library_path: Option<String>,
    path_var: Option<String>,
    cache: Vec<CacheEntry>,
    arch: &'static str,
}

fn machine() -> Machine {
    let mut machine = Machine {
        files: vec![],
        library_path: None,
        path_var: Some("/usr/local/bin:/usr/bin".to_string()),
        cache: vec![],
        arch: "x86_64",
    };
    machine.add("/lib64/ld.so", Image { soname: Some("ld.so"), ..image() }.build());
    machine
}

impl Machine {
    fn add(&mut self, path: &str, data: Vec<u8>) {
        self.link(path, path, data, 0o100755);
    }

    fn link(&mut self, path: &str, key: &str, data: Vec<u8>, mode: u32) {
        self.files.push(File { path: path.to_string(), key: key.to_string(), data, mode });
    }

    fn at(&self, path: &str) -> Option<&File> {
        self.files.iter().find(|file| file.path == path)
    }

    fn facts(&self, path: &str) -> Option<FileFacts> {
        self.at(path).map(|file| FileFacts { is_file: true, mode: file.mode })
    }

    fn read(&self, path: &str) -> Result<Vec<u8>, String> {
        match self.files.iter().find(|file| file.path == path || file.key == path) {
            Some(file) => Ok(file.data.clone()),
            None => Err("No such file or directory (os error 2)".to_string()),
        }
    }

    fn environment(&self) -> Environment {
        Environment { library_path: self.library_path.clone(), preload: None, debug: None }
    }

    fn probe(&self, place: &str) -> Probe {
        match self.at(place) {
            Some(file) => Probe::File {
                head: file.data.iter().take(20).copied().collect(),
                key: file.key.clone(),
            },
            None => Probe::Absent,
        }
    }

    fn diagnose(&self, path: &str) -> Result<Analysis, AnalyzeError> {
        self.diagnose_counting(path).map(|(analysis, _)| analysis)
    }

    /// The analysis, and the files that were loaded for it.
    fn diagnose_counting(&self, path: &str) -> Result<(Analysis, Vec<String>), AnalyzeError> {
        let target = match self.at(path) {
            Some(file) => Target::File { data: file.data.clone(), canonical: file.key.clone() },
            None => Target::Unreadable("No such file or directory (os error 2)".to_string()),
        };
        match analyze(path, &target)? {
            Inspection::Settled(analysis) => Ok((*analysis, vec![])),
            Inspection::Script(shebang) => {
                let places = interpreter_candidates(
                    &shebang.command,
                    shebang.via_env,
                    self.path_var.as_deref(),
                );
                let seen: Vec<Option<FileFacts>> =
                    places.iter().map(|place| self.facts(place)).collect();
                let analysis = analyze_script(
                    path,
                    &shebang,
                    self.facts(path),
                    self.path_var.as_deref(),
                    &seen,
                    &self.environment(),
                );
                Ok((analysis, vec![]))
            }
            Inspection::Elf(elf) => {
                let key = elf.path.clone();
                let interpreter = elf.interpreter.clone().unwrap_or_default();
                let resolver =
                    Resolver::new(self.library_path.as_deref(), self.cache.clone(), &vec![]);
                let mut walk = Walk::new(path, &key, *elf, resolver, self.arch);
                let mut loads = vec![];
                loop {
                    match walk.request() {
                        Request::Locate { candidates, wanted: _ } => {
                            let probes: Vec<Probe> =
                                candidates.iter().map(|place| self.probe(place)).collect();
                            walk.located(&probes);
                        }
                        Request::Load { key } => {
                            let content = self.read(&key);
                            loads.push(key);
                            walk.loaded(&content);
                        }
                        Request::Done => break,
                    }
                }
                let facts = ElfFacts {
                    file: self.facts(path),
                    interpreter: self.facts(&interpreter),
                    loader: self.read(&interpreter),
                    env: self.environment(),
                };
                Ok((analyze_elf(walk, &facts), loads))
            }
        }
    }

    fn report(&self, path: &str, verbose: bool) -> String {
        let options = Options { ascii: true, no_color: true, verbose, ..Options::default() };
        let distro =
            Distro { id: "arch".into(), name: "Arch".into(), family: Family::Arch };
        report::to_string(&self.diagnose(path).unwrap(), &options, &distro)
    }
}

fn libc() -> Image {
    Image {
        soname: Some("libc.so.6"),
        symbols: vec![
            ("", 0, 0, 0),
            ("printf", GLOBAL, 12, 2),
            ("memcpy", GLOBAL, 12, 3),
            ("plain", GLOBAL, 12, 0),
            ("based", GLOBAL, 12, 1),
        ],
        defs: vec![(1, "libc.so.6"), (2, "GLIBC_2.2.5"), (3, "GLIBC_2.34")],
        ..image()
    }
}

fn game() -> Image {
    Image {
        needed: vec!["libc.so.6"],
        symbols: vec![("", 0, 0, 0), ("printf", GLOBAL, 0, 2), ("maybe", WEAK, 0, 0)],
        needs: vec![("libc.so.6", vec![(2, "GLIBC_2.2.5")])],
        ..program()
    }
}

// ---------------------------------------------------------------------------
// Parsing
// ---------------------------------------------------------------------------

#[test]
fn reads_every_class_and_byte_order() {
    for class in [Class::Elf32, Class::Elf64] {
        for endian in [Endian::Little, Endian::Big] {
            let elf = Image {
                class,
                endian,
                machine: 0x1234,
                soname: Some("libgame.so.1"),
                rpath: Some("/a:/b"),
                runpath: Some("$ORIGIN/lib"),
                ..game()
            }
            .parse();
            assert_eq!(elf.class, class);
            assert_eq!(elf.endian, endian);
            assert_eq!(elf.machine, 0x1234);
            assert_eq!(elf.entry, 0x1000);
            assert_eq!(elf.path, "/opt/app/game");
            assert_eq!(elf.interpreter.as_deref(), Some("/lib64/ld.so"));
            assert_eq!(elf.soname.as_deref(), Some("libgame.so.1"));
            assert_eq!(elf.needed, vec!["libc.so.6"]);
            assert_eq!(elf.rpath, vec!["/a", "/b"]);
            assert_eq!(elf.runpath, vec!["$ORIGIN/lib"]);
            assert!(elf.has_dynamic);
            let import = elf.symbols.iter().find(|s| s.name == "printf").unwrap();
            assert!(import.undefined);
            assert_eq!(import.binding, Binding::Global);
            assert!(!import.satisfies());
            assert_eq!(elf.version_name(import.version_index), Some("GLIBC_2.2.5"));
            assert_eq!(elf.version_file(import.version_index), Some("libc.so.6"));
            assert_eq!(elf.version_needs.len(), 1);
            assert_eq!(elf.version_needs[0].file, "libc.so.6");
            assert_eq!(elf.version_needs[0].versions, vec!["GLIBC_2.2.5"]);
        }
    }
}

#[test]
fn reads_defined_versions() {
    let elf = libc().parse();
    assert_eq!(elf.defined_versions, vec!["libc.so.6", "GLIBC_2.2.5", "GLIBC_2.34"]);
    let memcpy = elf.symbols.iter().find(|s| s.name == "memcpy").unwrap();
    assert!(memcpy.satisfies());
    assert_eq!(elf.defined_version_name(memcpy.version_index), Some("GLIBC_2.34"));
    assert_eq!(elf.defined_version_name(1), Some("libc.so.6"));
    assert_eq!(elf.defined_version_name(9), None);
}

#[test]
fn recognises_a_static_pie() {
    let mut elf = game().parse();
    // Simulate `gcc -static-pie`: ET_DYN, no interpreter, DF_1_PIE set.
    elf.etype = ElfType::Shared;
    elf.interpreter = None;
    elf.soname = None;
    elf.entry = 0x1000;
    elf.flags_1 = DF_1_PIE;
    assert!(elf.is_static_pie());
    assert!(elf.is_runnable());
    assert_eq!(elf.kind(), "static position-independent executable (PIE)");

    // A plain shared library is not runnable.
    elf.flags_1 = 0;
    elf.entry = 0;
    elf.soname = Some("libexample.so.1".to_string());
    assert!(!elf.is_static_pie());
    assert!(!elf.is_runnable());
    assert_eq!(elf.kind(), "shared library");

    // A dynamic PIE (ET_DYN with an interpreter) is runnable too.
    elf.interpreter = Some("/lib64/ld-linux-x86-64.so.2".to_string());
    assert!(!elf.is_static_pie());
    assert!(elf.is_runnable());
    assert_eq!(elf.kind(), "position-independent executable (PIE)");
}

#[test]
fn every_kind_of_object_has_its_name() {
    let kind = |made: Image| {
        let elf = made.parse();
        if elf.is_program() {
            assert!(elf.is_runnable());
        }
        (elf.kind(), elf.is_program(), elf.is_runnable())
    };
    assert_eq!(kind(Image { etype: 2, ..program() }), ("dynamically linked executable", true, true));
    assert_eq!(
        kind(Image { etype: 2, ..image() }),
        ("executable without an interpreter", false, true)
    );
    assert_eq!(
        kind(Image { etype: 2, dynamic: false, ..image() }),
        ("statically linked executable", false, true)
    );
    assert_eq!(kind(program()), ("position-independent executable (PIE)", true, true));
    assert_eq!(
        kind(Image { flags_1: DF_1_PIE, soname: Some("x"), ..image() }),
        ("static position-independent executable (PIE)", false, true)
    );
    assert_eq!(kind(libc()), ("shared library", false, false));
    assert_eq!(
        kind(Image { entry: 0, ..image() }),
        ("position-independent object", false, false)
    );
    assert_eq!(kind(Image { etype: 1, ..image() }), ("relocatable object", false, false));
    assert_eq!(kind(Image { etype: 4, ..image() }), ("core dump", false, false));
    assert_eq!(kind(Image { etype: 9, ..image() }), ("ELF object", false, false));
}

#[test]
fn only_the_path_depends_on_the_path() {
    let data = game().build();
    let a = ElfFile::parse_bytes("/a", &data).unwrap();
    let b = ElfFile::parse_bytes("/b", &data).unwrap();
    assert_eq!(a.path, "/a");
    assert_eq!(b.path, "/b");
    assert_eq!(a.needed, b.needed);
    assert_eq!(a.interpreter, b.interpreter);
    assert_eq!(a.symbols.len(), b.symbols.len());
}

#[test]
fn every_truncation_is_handled() {
    let data = game().build();
    for n in 0..data.len() {
        let cut = &data[..n];
        match ElfFile::parse_bytes("/tmp/x", cut) {
            Ok(elf) => assert_eq!(elf.machine, 0x3e),
            Err(ElfError::NotElf) => assert!(n < 16),
            Err(ElfError::Truncated(_)) => {}
            Err(other) => panic!("{}", other.message()),
        }
    }
}

#[test]
fn parse_errors_say_what_is_wrong() {
    let mut data = game().build();
    data[4] = 7;
    assert_eq!(
        ElfFile::parse_bytes("/x", &data).unwrap_err().message(),
        "malformed ELF file: unknown ELF class 7"
    );
    data[4] = 2;
    data[5] = 9;
    assert_eq!(
        ElfFile::parse_bytes("/x", &data).unwrap_err().message(),
        "malformed ELF file: unknown ELF data encoding 9"
    );
    data[5] = 1;
    assert_eq!(
        ElfFile::parse_bytes("/x", &data[..40]).unwrap_err().message(),
        "truncated ELF file: ELF header is 40 bytes, expected at least 64"
    );
    assert_eq!(ElfFile::parse_bytes("/x", b"text").unwrap_err().message(), "not an ELF file");
    assert_eq!(
        ElfFile::parse("/x", &Err("permission denied".to_string())).unwrap_err().message(),
        "permission denied"
    );
}

#[test]
fn a_library_name_that_is_not_utf8_is_replaced_where_it_is_broken() {
    let mut data = game().build();
    let name = b"libc.so.6";
    let at = data.windows(name.len()).position(|w| w == name).unwrap();
    data[at + 3] = 0xff;
    let elf = ElfFile::parse_bytes("/x", &data).unwrap();
    assert_eq!(elf.needed, vec!["lib\u{fffd}.so.6"]);
    // What ends a name is not part of it.
    assert!(!elf.needed[0].contains('\0'));
    assert!(elf.symbols.iter().all(|s| !s.name.contains('\0')));
}

#[test]
fn identifies_what_it_parses() {
    for class in [Class::Elf32, Class::Elf64] {
        for endian in [Endian::Little, Endian::Big] {
            let made = Image { class, endian, machine: 0x00b7, ..game() };
            let data = made.build();
            assert_eq!(identify(&data[..20]).unwrap(), ElfIdentity::of(&made.parse()));
        }
    }
}

/// A 64-bit object without section headers: everything is reached through the
/// program headers and the dynamic table.
fn stripped(gnu: bool) -> Vec<u8> {
    let mut strings = Strings { bytes: vec![0] };
    let needed = strings.add("libc.so.6");
    let first = strings.add("first");
    let second = strings.add("second");
    let version = strings.add("GLIBC_2.2.5");
    let put = |out: &mut Vec<u8>, value: u64, size: usize| {
        out.extend_from_slice(&value.to_le_bytes()[..size]);
    };
    let mut body = vec![0u8; 64 + 2 * 56];
    let strtab = body.len() as u64;
    body.extend_from_slice(&strings.bytes);

    let symtab = body.len() as u64;
    for (name, info, shndx) in [(0, 0, 0), (first, GLOBAL, 0), (second, GLOBAL, 7)] {
        put(&mut body, name, 4);
        put(&mut body, info as u64, 1);
        put(&mut body, 0, 1);
        put(&mut body, shndx, 2);
        put(&mut body, 0, 8);
        put(&mut body, 0, 8);
    }

    let versym = body.len() as u64;
    for index in [0u64, 2, 0x8003] {
        put(&mut body, index, 2);
    }

    let verneed = body.len() as u64;
    for (value, size) in
        [(1u64, 2), (1, 2), (needed, 4), (16, 4), (0, 4), (0, 4), (0, 2), (2, 2), (version, 4), (0, 4)]
    {
        put(&mut body, value, size);
    }

    let hash = body.len() as u64;
    if gnu {
        // Two buckets, symbols hashed from index 1 on, one bloom word.
        for value in [2u64, 1, 1, 0] {
            put(&mut body, value, 4);
        }
        put(&mut body, 0, 8);
        for value in [0u64, 1, 8, 9] {
            put(&mut body, value, 4);
        }
    } else {
        for value in [1u64, 3, 1, 0, 2, 0] {
            put(&mut body, value, 4);
        }
    }

    let dynamic = body.len() as u64;
    let hash_tag = if gnu { 0x6fff_fef5 } else { 4 };
    for (tag, value) in [
        (1u64, needed),
        (5, strtab),
        (10, strings.bytes.len() as u64),
        (6, symtab),
        (11, 24),
        (hash_tag, hash),
        (0x6fff_fff0, versym),
        (0x6fff_fffe, verneed),
        (0, 0),
    ] {
        put(&mut body, tag, 8);
        put(&mut body, value, 8);
    }
    let size = body.len() as u64;

    let mut head: Vec<u8> = b"\x7fELF\x02\x01\x01\0\0\0\0\0\0\0\0\0".to_vec();
    for (value, width) in [
        (3u64, 2),
        (0x3e, 2),
        (1, 4),
        (0, 8),
        (64, 8),
        (0, 8),
        (0, 4),
        (64, 2),
        (56, 2),
        (2, 2),
        (64, 2),
        (0, 2),
        (0, 2),
    ] {
        put(&mut head, value, width);
    }
    for (kind, offset, length) in [(1u64, 0u64, size), (2, dynamic, size - dynamic)] {
        put(&mut head, kind, 4);
        put(&mut head, 0, 4);
        for value in [offset, offset, offset, length, length, 1] {
            put(&mut head, value, 8);
        }
    }
    body[..head.len()].copy_from_slice(&head);
    body
}

#[test]
fn reads_an_object_without_section_headers() {
    for gnu in [false, true] {
        let elf = ElfFile::parse_bytes("/x", &stripped(gnu)).unwrap();
        assert_eq!(elf.needed, vec!["libc.so.6"]);
        let names: Vec<&str> = elf.symbols.iter().map(|s| s.name.as_str()).collect();
        assert_eq!(names, vec!["first", "second"]);
        assert!(elf.symbols[0].undefined);
        assert_eq!(elf.version_name(elf.symbols[0].version_index), Some("GLIBC_2.2.5"));
        assert_eq!(elf.version_file(2), Some("libc.so.6"));
        assert!(elf.symbols[1].satisfies());
        // The hidden bit is not part of the index.
        assert_eq!(elf.symbols[1].version_index, 3);
        assert_eq!(elf.version_needs[0].versions, vec!["GLIBC_2.2.5"]);
    }
}

// ---------------------------------------------------------------------------
// Healthy programs
// ---------------------------------------------------------------------------

#[test]
fn a_healthy_program_has_no_problems() {
    let mut m = machine();
    m.add("/lib/libc.so.6", libc().build());
    m.add("/opt/game", game().build());
    let analysis = m.diagnose("/opt/game").unwrap();
    assert!(analysis.is_analyzable());
    assert!(analysis.missing_libraries().is_empty());
    assert!(analysis.unusable_libraries().is_empty());
    assert!(analysis.unresolved.is_empty());
    assert!(analysis.version_problems.is_empty());
    assert_eq!(analysis.problem_count(), 0);
    assert!(!analysis.has_failures());
    assert_eq!(analysis.exit_code(), 0);
    assert_eq!(analysis.libraries.len(), 1);
    assert_eq!(
        analysis.libraries[0].resolution,
        LibResolution::Found("/lib/libc.so.6".to_string())
    );
    assert_eq!(analysis.libraries[0].needed_by, vec!["/opt/game"]);
    assert!(matches!(analysis.kind, TargetKind::Elf(_)));
}

#[test]
fn a_healthy_program_reports_no_problems() {
    let mut m = machine();
    m.add("/lib/libc.so.6", libc().build());
    m.add("/opt/game", game().build());
    let text = m.report("/opt/game", false);
    assert_eq!(
        text,
        "WHY DOES THIS PROGRAM NOT WORK?\n\
         \n  /opt/game\n  position-independent executable (PIE) · 64-bit x86-64\n\
         \n[ok] Executable permission\n  /opt/game                                   executable\n\
         \n[ok] Architecture\n  x86-64, 64-bit    matches this system (x86-64, 64-bit)\n\
         \n[ok] ELF interpreter\n  /lib64/ld.so                                   present\n\
         \n[ok] Shared libraries\n  1 resolved, 0 unusable\n\
         \n[ok] Symbol dependencies\n  every imported symbol is provided\n\
         \nSuggested next steps\n  1. No problem was found in the ELF metadata; the failure is \
         likely at runtime (arguments, configuration, permissions) or in an area `why` does not \
         inspect yet — see TODO\n\
         \n[ok] no problems found\n"
    );
}

#[test]
fn verbose_lists_what_was_found() {
    let mut m = machine();
    m.add("/lib/libc.so.6", libc().build());
    m.add("/opt/game", game().build());
    let text = m.report("/opt/game", true);
    assert!(text.contains("  libc.so.6                               /lib/libc.so.6\n"), "{text}");
    assert!(text.contains("  1 symbol version requirements satisfied\n"), "{text}");
    assert!(text.contains("  no relevant variables set\n"), "{text}");
}

#[test]
fn a_static_program_needs_nothing() {
    let mut m = machine();
    m.add("/opt/static", Image { etype: 2, dynamic: false, ..image() }.build());
    let analysis = m.diagnose("/opt/static").unwrap();
    assert_eq!(analysis.exit_code(), 0);
    assert_eq!(
        analysis.notes,
        vec!["statically linked: no dynamic loader and no shared library dependencies"]
    );
    let text = m.report("/opt/static", false);
    assert!(text.contains("  not used (statically linked)\n"), "{text}");
    assert!(text.contains("  none (statically linked)\n"), "{text}");
    assert!(text.contains("  not applicable (statically linked)\n"), "{text}");
}

// ---------------------------------------------------------------------------
// Libraries
// ---------------------------------------------------------------------------

#[test]
fn a_missing_library_is_reported_with_its_requirers() {
    let mut m = machine();
    m.add("/lib/libc.so.6", Image { needed: vec!["libgone.so.1"], ..libc() }.build());
    m.add("/opt/game", Image { needed: vec!["libc.so.6", "libgone.so.1"], ..game() }.build());
    let analysis = m.diagnose("/opt/game").unwrap();
    assert_eq!(analysis.exit_code(), 1);
    assert_eq!(analysis.problem_count(), 1);
    let missing = analysis.missing_libraries();
    assert_eq!(missing.len(), 1);
    assert_eq!(missing[0].name, "libgone.so.1");
    assert_eq!(missing[0].needed_by, vec!["/opt/game", "/lib/libc.so.6"]);
    let text = m.report("/opt/game", false);
    assert!(text.contains("  libgone.so.1                                   MISSING\n"), "{text}");
    assert!(text.contains("      required by /opt/game\n"), "{text}");
    assert!(text.contains("      required by /lib/libc.so.6\n"), "{text}");
    assert!(
        text.contains(
            "  1. Find and install the package that provides libgone.so.1 — \
             pacman -F libgone.so.1   (or: pkgfile libgone.so.1)\n"
        ),
        "{text}"
    );
    assert!(text.ends_with("[x] 1 problem found\n"), "{text}");
}

#[test]
fn a_library_of_another_architecture_is_not_taken() {
    let mut m = machine();
    m.add("/lib/libc.so.6", Image { class: Class::Elf32, machine: 0x03, ..libc() }.build());
    m.add("/opt/game", game().build());
    let analysis = m.diagnose("/opt/game").unwrap();
    assert_eq!(
        analysis.libraries[0].resolution,
        LibResolution::WrongArchitecture {
            path: "/lib/libc.so.6".to_string(),
            found: "i386",
            wanted: "x86-64",
        }
    );
    // The symbol it would have provided is open as well.
    assert_eq!(analysis.problem_count(), 2);
    let text = m.report("/opt/game", false);
    assert!(text.contains("WRONG ARCH"), "{text}");
    assert!(
        text.contains("      found /lib/libc.so.6 (i386), but a x86-64 object is required\n"),
        "{text}"
    );
}

#[test]
fn a_non_elf_library_is_unusable() {
    let mut m = machine();
    m.library_path = Some("/stale".to_string());
    m.add("/stale/libc.so.6", b"this is not an ELF object, just text\n".to_vec());
    m.add("/opt/game", game().build());
    let analysis = m.diagnose("/opt/game").unwrap();
    assert_eq!(
        analysis.libraries[0].resolution,
        LibResolution::Unusable {
            path: "/stale/libc.so.6".to_string(),
            reason: "not an ELF object".to_string(),
        }
    );
    let text = m.report("/opt/game", false);
    assert!(text.contains("UNUSABLE"), "{text}");
    assert!(text.contains("[!] Environment\n"), "{text}");
    assert!(text.contains("env -u LD_LIBRARY_PATH"), "{text}");
}

#[test]
fn what_does_not_parse_stays_unusable_however_often_it_is_needed() {
    let mut m = machine();
    // The header is in order, the section table is not there.
    let mut broken = libc().build();
    broken.truncate(100);
    m.add("/lib/libc.so.6", broken);
    m.add("/lib/liba.so", Image { needed: vec!["libc.so.6"], ..image() }.build());
    m.add(
        "/opt/game",
        Image { needed: vec!["libc.so.6", "liba.so"], ..game() }.build(),
    );
    let (analysis, loads) = m.diagnose_counting("/opt/game").unwrap();
    let libc = &analysis.libraries[0];
    assert_eq!(libc.name, "libc.so.6");
    assert_eq!(libc.needed_by, vec!["/opt/game", "/lib/liba.so"]);
    match &libc.resolution {
        LibResolution::Unusable { path, reason } => {
            assert_eq!(path, "/lib/libc.so.6");
            assert!(reason.starts_with("could not be parsed (truncated ELF file: "), "{reason}");
        }
        other => panic!("{other:?}"),
    }
    assert_eq!(loads, vec!["/lib/libc.so.6", "/lib/liba.so"]);
    assert_eq!(analysis.notes.len(), 1);
    assert!(analysis.notes[0].starts_with("could not read /lib/libc.so.6: "));
    assert_eq!(analysis.exit_code(), 1);
}

#[test]
fn a_file_that_does_not_parse_replaces_one_that_cannot_be_used() {
    // The root's search ends at text; the one of its library, which has a path
    // of its own, at a file that does not parse.
    let mut m = machine();
    let mut broken = libc().build();
    broken.truncate(100);
    m.add("/lib/libx.so", b"text\n".to_vec());
    m.add("/own/libx.so", broken.clone());
    m.add(
        "/lib/liba.so",
        Image { needed: vec!["libx.so"], runpath: Some("/own"), ..image() }.build(),
    );
    m.add("/opt/game", Image { needed: vec!["libx.so", "liba.so"], ..program() }.build());
    let analysis = m.diagnose("/opt/game").unwrap();
    let found = &analysis.libraries[0];
    assert_eq!(found.needed_by, vec!["/opt/game", "/lib/liba.so"]);
    match &found.resolution {
        LibResolution::Unusable { path, reason } => {
            assert_eq!(path, "/own/libx.so");
            assert!(reason.starts_with("could not be parsed ("), "{reason}");
        }
        other => panic!("{other:?}"),
    }

    // It is the same where the file failed to parse under another name before.
    let mut m = machine();
    m.add("/lib/libx.so", b"text\n".to_vec());
    m.link("/lib/liby.so", "/own/libx.so", broken.clone(), 0o755);
    m.link("/own/libx.so", "/own/libx.so", broken.clone(), 0o755);
    m.add(
        "/lib/liba.so",
        Image { needed: vec!["libx.so"], runpath: Some("/own"), ..image() }.build(),
    );
    m.add(
        "/opt/game",
        Image { needed: vec!["libx.so", "liby.so", "liba.so"], ..program() }.build(),
    );
    let (analysis, loads) = m.diagnose_counting("/opt/game").unwrap();
    assert_eq!(loads, vec!["/own/libx.so", "/lib/liba.so"]);
    assert!(matches!(
        &analysis.libraries[0].resolution,
        LibResolution::Unusable { path, .. } if path == "/own/libx.so"
    ));

    // A library of another architecture says more, and stays.
    let mut m = machine();
    m.add("/lib/libx.so", Image { class: Class::Elf32, machine: 0x03, ..image() }.build());
    m.add("/own/libx.so", broken);
    m.add(
        "/lib/liba.so",
        Image { needed: vec!["libx.so"], runpath: Some("/own"), ..image() }.build(),
    );
    m.add("/opt/game", Image { needed: vec!["libx.so", "liba.so"], ..program() }.build());
    let analysis = m.diagnose("/opt/game").unwrap();
    assert!(matches!(
        &analysis.libraries[0].resolution,
        LibResolution::WrongArchitecture { path, .. } if path == "/lib/libx.so"
    ));
}

#[test]
fn every_object_is_parsed_once_even_in_a_cycle() {
    let mut m = machine();
    m.add("/lib/liba.so", Image { needed: vec!["libb.so", "game"], ..image() }.build());
    m.add("/lib/libb.so", Image { needed: vec!["liba.so"], ..image() }.build());
    m.link("/lib/game", "/opt/game", vec![], 0o755);
    m.add(
        "/opt/game",
        Image { needed: vec!["liba.so", "libb.so", "liba.so"], ..program() }.build(),
    );
    let data = m.at("/opt/game").unwrap().data.clone();
    m.files.iter_mut().find(|f| f.path == "/lib/game").unwrap().data = data;
    let (analysis, loads) = m.diagnose_counting("/opt/game").unwrap();
    assert_eq!(loads, vec!["/lib/liba.so", "/lib/libb.so"]);
    assert_eq!(analysis.exit_code(), 0);
    let names: Vec<&str> = analysis.libraries.iter().map(|l| l.name.as_str()).collect();
    assert_eq!(names, vec!["liba.so", "libb.so", "game"]);
    assert_eq!(analysis.libraries[0].needed_by, vec!["/opt/game", "/lib/libb.so"]);
    assert_eq!(analysis.libraries[1].needed_by, vec!["/opt/game", "/lib/liba.so"]);
}

#[test]
fn two_names_for_one_file_are_one_object() {
    let mut m = machine();
    m.link("/lib/liba.so", "/lib/liba.so.1.0", image().build(), 0o755);
    m.link("/lib/liba.so.1", "/lib/liba.so.1.0", image().build(), 0o755);
    m.add("/opt/game", Image { needed: vec!["liba.so", "liba.so.1"], ..program() }.build());
    let (analysis, loads) = m.diagnose_counting("/opt/game").unwrap();
    assert_eq!(loads, vec!["/lib/liba.so.1.0"]);
    assert_eq!(analysis.libraries.len(), 2);
    assert!(analysis.unusable_libraries().is_empty());
    assert!(analysis.notes.is_empty());
}

#[test]
fn one_name_for_two_files_is_noted() {
    let mut m = machine();
    m.add("/lib/liba.so", image().build());
    m.add("/opt/own/liba.so", image().build());
    m.add(
        "/lib/libb.so",
        Image { needed: vec!["liba.so"], runpath: Some("/opt/own"), ..image() }.build(),
    );
    m.add("/opt/game", Image { needed: vec!["liba.so", "libb.so"], ..program() }.build());
    let analysis = m.diagnose("/opt/game").unwrap();
    assert_eq!(
        analysis.notes,
        vec!["liba.so resolves to more than one file (/lib/liba.so and /opt/own/liba.so)"]
    );
    assert_eq!(
        analysis.libraries[0].resolution,
        LibResolution::Found("/lib/liba.so".to_string())
    );
    assert!(m.report("/opt/game", false).contains("• liba.so resolves to more than one file"));
}

#[test]
fn a_good_outcome_replaces_a_bad_one_and_stays() {
    let mut m = machine();
    // The program cannot find liba.so; libb.so can, and libc.so.6 cannot.
    m.add("/opt/own/liba.so", image().build());
    m.add(
        "/lib/libb.so",
        Image { needed: vec!["liba.so", "libz.so"], runpath: Some("/opt/own"), ..image() }.build(),
    );
    m.add("/lib/libz.so", Image { needed: vec!["liba.so"], ..image() }.build());
    m.add("/opt/game", Image { needed: vec!["liba.so", "libb.so"], ..program() }.build());
    let analysis = m.diagnose("/opt/game").unwrap();
    assert_eq!(
        analysis.libraries[0].resolution,
        LibResolution::Found("/opt/own/liba.so".to_string())
    );
    assert_eq!(
        analysis.libraries[0].needed_by,
        vec!["/opt/game", "/lib/libb.so", "/lib/libz.so"]
    );
    assert_eq!(analysis.exit_code(), 0);
}

#[test]
fn the_rpath_of_the_root_applies_to_the_whole_chain() {
    let mut m = machine();
    m.add("/opt/own/liba.so", Image { needed: vec!["libb.so"], ..image() }.build());
    m.add("/opt/own/libb.so", image().build());
    let root = Image { needed: vec!["liba.so"], rpath: Some("$ORIGIN/own"), ..program() };
    m.add("/opt/game", root.build());
    assert_eq!(m.diagnose("/opt/game").unwrap().exit_code(), 0);

    // A runpath does not, and takes the rpath out of use.
    let mut m = machine();
    m.add("/opt/own/liba.so", Image { needed: vec!["libb.so"], ..image() }.build());
    m.add("/opt/own/libb.so", image().build());
    let root = Image { runpath: Some("/opt/own"), ..root };
    m.add("/opt/game", root.build());
    let analysis = m.diagnose("/opt/game").unwrap();
    assert_eq!(analysis.libraries[0].name, "liba.so");
    assert!(matches!(analysis.libraries[0].resolution, LibResolution::Found(_)));
    assert_eq!(analysis.libraries[1].name, "libb.so");
    assert_eq!(analysis.libraries[1].resolution, LibResolution::Missing);
}

#[test]
fn answers_that_were_not_asked_for_change_nothing() {
    let root = game().parse();
    let mut walk =
        Walk::new("game", "/opt/game", root, Resolver::new(None, vec![], &vec![]), "x86_64");
    walk.loaded(&Err("never asked for".to_string()));
    match walk.request() {
        Request::Locate { candidates, wanted } => {
            assert_eq!(candidates[0], "/lib/libc.so.6");
            assert_eq!(wanted, ElfIdentity { class: Class::Elf64, machine: 0x3e });
        }
        other => panic!("{other:?}"),
    }
    walk.located(&[]);
    assert!(matches!(walk.request(), Request::Done));
    walk.located(&[]);
    assert!(matches!(walk.request(), Request::Done));
}

// ---------------------------------------------------------------------------
// Symbols and versions
// ---------------------------------------------------------------------------

#[test]
fn an_unresolved_symbol_is_reported_once() {
    let mut m = machine();
    m.add("/lib/libc.so.6", libc().build());
    m.add(
        "/opt/game",
        Image {
            symbols: vec![
                ("", 0, 0, 0),
                ("zz_missing", GLOBAL, 0, 0),
                ("aa_missing", GLOBAL, 0, 2),
                ("zz_missing", GLOBAL, 0, 0),
                ("weak_missing", WEAK, 0, 0),
                ("printf", GLOBAL, 0, 2),
            ],
            ..game()
        }
        .build(),
    );
    let analysis = m.diagnose("/opt/game").unwrap();
    let names: Vec<&str> = analysis.unresolved.iter().map(|s| s.name.as_str()).collect();
    assert_eq!(names, vec!["aa_missing", "zz_missing"]);
    assert_eq!(analysis.unresolved[0].version.as_deref(), Some("GLIBC_2.2.5"));
    assert_eq!(analysis.unresolved[0].object, "/opt/game");
    assert_eq!(analysis.unresolved[1].version, None);
    assert_eq!(analysis.problem_count(), 2);
    let text = m.report("/opt/game", false);
    assert!(text.contains("  2 unresolved symbols\n"), "{text}");
    assert!(text.contains("  aa_missing@GLIBC_2.2.5                       /opt/game\n"), "{text}");
}

#[test]
fn nothing_is_listed_twice() {
    let mut m = machine();
    m.add("/lib/libc.so.6", libc().build());
    let open = vec![("", 0, 0, 0), ("gone", GLOBAL, 0, 2), ("gone", GLOBAL, 0, 2)];
    let needs = vec![("libc.so.6", vec![(2, "GLIBC_9.9"), (3, "GLIBC_9.9")])];
    m.add(
        "/lib/liba.so",
        Image {
            needed: vec!["libc.so.6"],
            symbols: open.clone(),
            needs: needs.clone(),
            ..image()
        }
        .build(),
    );
    m.add(
        "/opt/game",
        Image { needed: vec!["libc.so.6", "liba.so"], symbols: open, needs, ..program() }.build(),
    );
    let analysis = m.diagnose("/opt/game").unwrap();
    let symbols: Vec<(&str, &str)> =
        analysis.unresolved.iter().map(|u| (u.name.as_str(), u.object.as_str())).collect();
    assert_eq!(symbols, vec![("gone", "/lib/liba.so"), ("gone", "/opt/game")]);
    let versions: Vec<(&str, &str)> =
        analysis.version_problems.iter().map(|v| (v.required.as_str(), v.object.as_str())).collect();
    assert_eq!(versions, vec![("GLIBC_9.9", "/opt/game"), ("GLIBC_9.9", "/lib/liba.so")]);
}

#[test]
fn another_version_of_a_symbol_does_not_satisfy() {
    let mut m = machine();
    m.add("/lib/libc.so.6", libc().build());
    // memcpy is defined as GLIBC_2.34 only; plain is unversioned; based has the
    // version that the library is named by.
    let with = |symbol: Symbol| Image { symbols: vec![symbol], ..game() }.build();
    m.add("/opt/other", with(("memcpy", GLOBAL, 0, 2)));
    m.add("/opt/any", with(("memcpy", GLOBAL, 0, 0)));
    m.add("/opt/plain", with(("plain", GLOBAL, 0, 2)));
    m.add("/opt/base", with(("based", GLOBAL, 0, 2)));
    let other = m.diagnose("/opt/other").unwrap();
    assert_eq!(other.unresolved.len(), 1);
    assert_eq!(other.unresolved[0].name, "memcpy");
    assert!(m.diagnose("/opt/any").unwrap().unresolved.is_empty());
    assert!(m.diagnose("/opt/plain").unwrap().unresolved.is_empty());
    assert_eq!(m.diagnose("/opt/base").unwrap().unresolved.len(), 1);
}

#[test]
fn a_long_list_of_symbols_is_cut_unless_all_are_asked_for() {
    const NAMES: [&str; 25] = [
        "s00", "s01", "s02", "s03", "s04", "s05", "s06", "s07", "s08", "s09", "s10", "s11", "s12",
        "s13", "s14", "s15", "s16", "s17", "s18", "s19", "s20", "s21", "s22", "s23", "s24",
    ];
    let mut m = machine();
    m.add("/lib/libc.so.6", libc().build());
    let symbols: Vec<Symbol> = NAMES.iter().rev().map(|name| (*name, GLOBAL, 0, 0)).collect();
    m.add("/opt/game", Image { symbols, ..game() }.build());
    let text = m.report("/opt/game", false);
    assert!(text.contains("  25 unresolved symbols\n"), "{text}");
    assert!(text.contains("  s19 ") && !text.contains("  s20 "), "{text}");
    assert!(text.contains("  … and 5 more (use --verbose)\n"), "{text}");
    let text = m.report("/opt/game", true);
    assert!(text.contains("  s24 ") && !text.contains("more (use --verbose)"), "{text}");
}

#[test]
fn a_version_that_the_library_lacks_is_reported() {
    let mut m = machine();
    m.add("/lib/libc.so.6", libc().build());
    m.add(
        "/opt/game",
        Image {
            symbols: vec![],
            needs: vec![(
                "libc.so.6",
                vec![(2, "GLIBC_2.42"), (3, "GLIBC_2.34"), (4, "GLIBC_2.40"), (5, "GLIBC_2.42")],
            )],
            ..game()
        }
        .build(),
    );
    let analysis = m.diagnose("/opt/game").unwrap();
    let required: Vec<&str> =
        analysis.version_problems.iter().map(|p| p.required.as_str()).collect();
    assert_eq!(required, vec!["GLIBC_2.40", "GLIBC_2.42"]);
    let problem = &analysis.version_problems[1];
    assert_eq!(problem.object, "/opt/game");
    assert_eq!(problem.library, "libc.so.6");
    assert_eq!(problem.library_path.as_deref(), Some("/lib/libc.so.6"));
    assert_eq!(problem.best_provided.as_deref(), Some("GLIBC_2.34"));
    let text = m.report("/opt/game", false);
    assert!(text.contains("needs GLIBC_2.42\n"), "{text}");
    assert!(
        text.contains("      required by /opt/game; /lib/libc.so.6 provides GLIBC_2.34\n"),
        "{text}"
    );
}

#[test]
fn versions_of_a_missing_library_are_not_reported_twice() {
    let mut m = machine();
    m.add("/opt/game", Image { symbols: vec![], ..game() }.build());
    let analysis = m.diagnose("/opt/game").unwrap();
    assert!(analysis.version_problems.is_empty());
    assert_eq!(analysis.problem_count(), 1);
}

// ---------------------------------------------------------------------------
// Programs that the machine cannot start
// ---------------------------------------------------------------------------

#[test]
fn a_missing_execute_bit_is_a_problem() {
    let mut m = machine();
    m.add("/lib/libc.so.6", libc().build());
    m.link("/opt/game", "/opt/game", game().build(), 0o100644);
    let analysis = m.diagnose("/opt/game").unwrap();
    assert_eq!(analysis.exit_code(), 1);
    let permissions = analysis.permissions.as_ref().unwrap();
    assert!(!permissions.executable);
    assert_eq!(permissions.mode, 0o644);
    let text = m.report("/opt/game", false);
    assert!(text.contains("not executable (mode 0644)\n"), "{text}");
    assert!(
        text.contains("Make the file executable: `chmod +x /opt/game` (currently mode 0644)"),
        "{text}"
    );
}

#[test]
fn a_missing_loader_is_a_problem() {
    let mut m = machine();
    m.add("/lib/libc.so.6", libc().build());
    m.add("/opt/game", Image { interp: Some("/lib/gone.so".to_string()), ..game() }.build());
    let analysis = m.diagnose("/opt/game").unwrap();
    let interpreter = analysis.interpreter.as_ref().unwrap();
    assert!(!interpreter.exists && !interpreter.executable);
    assert_eq!(interpreter.problem, None);
    assert_eq!(analysis.problem_count(), 1);
    let text = m.report("/opt/game", false);
    assert!(text.contains("  /lib/gone.so                                   MISSING\n"), "{text}");
    assert!(text.contains("Install the dynamic loader at /lib/gone.so"), "{text}");
}

#[test]
fn a_loader_that_may_not_be_executed_gets_a_step() {
    let mut m = machine();
    m.add("/lib/libc.so.6", libc().build());
    m.link("/opt/ld.so", "/opt/ld.so", image().build(), 0o644);
    m.add("/opt/game", Image { interp: Some("/opt/ld.so".to_string()), ..game() }.build());
    let analysis = m.diagnose("/opt/game").unwrap();
    let interpreter = analysis.interpreter.as_ref().unwrap();
    assert!(interpreter.exists && !interpreter.executable);
    assert_eq!(interpreter.problem, None);
    assert_eq!(analysis.problem_count(), 1);
    let distro = Distro { id: "arch".into(), name: "Arch".into(), family: Family::Arch };
    assert_eq!(
        report::suggestions(&analysis, &distro),
        vec!["Make the interpreter executable: `chmod +x /opt/ld.so`"]
    );
    let text = m.report("/opt/game", false);
    assert!(text.contains("not executable\n"), "{text}");
    assert!(!text.contains("No problem was found"), "{text}");
}

#[test]
fn a_script_whose_interpreter_may_not_be_executed_gets_a_step() {
    let mut m = machine();
    m.add("/opt/run", b"#!/opt/perl -w\n".to_vec());
    m.link("/opt/perl", "/opt/perl", vec![], 0o600);
    let analysis = m.diagnose("/opt/run").unwrap();
    assert_eq!(analysis.exit_code(), 1);
    let text = m.report("/opt/run", false);
    assert!(text.contains("  1. Make the interpreter executable: `chmod +x /opt/perl`\n"), "{text}");
}

#[test]
fn every_problem_gets_a_step() {
    // The file, a library, the loader, a symbol and a version, all at once.
    let mut m = machine();
    m.add("/lib/libc.so.6", libc().build());
    m.link("/opt/ld.so", "/opt/ld.so", image().build(), 0o644);
    let made = Image {
        interp: Some("/opt/ld.so".to_string()),
        needed: vec!["libc.so.6", "libgone.so"],
        symbols: vec![("", 0, 0, 0), ("nowhere", GLOBAL, 0, 0)],
        needs: vec![("libc.so.6", vec![(2, "GLIBC_9.9")])],
        ..program()
    };
    m.link("/opt/game", "/opt/game", made.build(), 0o644);
    let analysis = m.diagnose("/opt/game").unwrap();
    assert_eq!(analysis.problem_count(), 5);
    let distro = Distro { id: "arch".into(), name: "Arch".into(), family: Family::Arch };
    let steps = report::suggestions(&analysis, &distro);
    assert_eq!(steps.len(), 5);
    assert!(steps[0].starts_with("Make the file executable"));
    assert!(steps[1].starts_with("Find and install the package that provides libgone.so"));
    assert!(steps[2].starts_with("Make the interpreter executable"));
    assert!(steps[3].starts_with("Unresolved symbols"));
    assert!(steps[4].starts_with("A required symbol version is missing"));
    assert!(steps.iter().all(|step| !step.starts_with("No problem was found")));
}

#[test]
fn reports_an_interpreter_that_is_not_a_loader() {
    let mut m = machine();
    m.add("/lib/libc.so.6", libc().build());
    m.add("/opt/loader", b"#!/bin/sh\necho not a loader\n".to_vec());
    m.add("/opt/game", Image { interp: Some("/opt/loader".to_string()), ..game() }.build());
    let analysis = m.diagnose("/opt/game").unwrap();
    assert_eq!(
        analysis.interpreter.as_ref().unwrap().problem,
        Some(InterpreterProblem::NotLoadable("not an ELF file".to_string()))
    );
    assert_eq!(analysis.exit_code(), 1);
    let text = m.report("/opt/game", false);
    assert!(text.contains("not a valid loader"), "{text}");
    assert!(text.contains("      not an ELF file\n"), "{text}");
}

#[test]
fn a_loader_of_another_architecture_or_type_is_a_problem() {
    let mut m = machine();
    m.add("/lib/libc.so.6", libc().build());
    m.add("/opt/ld32.so", Image { class: Class::Elf32, machine: 0x03, ..image() }.build());
    m.add("/opt/core", Image { etype: 4, ..image() }.build());
    m.add("/opt/a", Image { interp: Some("/opt/ld32.so".to_string()), ..game() }.build());
    m.add("/opt/b", Image { interp: Some("/opt/core".to_string()), ..game() }.build());
    let a = m.diagnose("/opt/a").unwrap();
    assert_eq!(
        a.interpreter.as_ref().unwrap().problem,
        Some(InterpreterProblem::WrongArchitecture { found: "i386", wanted: "x86-64" })
    );
    let text = m.report("/opt/a", false);
    assert!(text.contains("wrong architecture"), "{text}");
    assert!(text.contains("      built for i386, but the program is x86-64\n"), "{text}");
    let b = m.diagnose("/opt/b").unwrap();
    assert_eq!(
        b.interpreter.as_ref().unwrap().problem,
        Some(InterpreterProblem::NotLoadable(
            "it is a core dump, which cannot be used as a loader".to_string()
        ))
    );
}

#[test]
fn a_relocatable_object_is_not_a_program() {
    let mut m = machine();
    m.add("/opt/crt1.o", Image { etype: 1, dynamic: false, ..image() }.build());
    m.add("/opt/core", Image { etype: 4, dynamic: false, ..image() }.build());
    let analysis = m.diagnose("/opt/crt1.o").unwrap();
    assert_eq!(
        analysis.not_a_program.as_deref(),
        Some("this is a relocatable object (.o), not something that can be run")
    );
    assert_eq!(analysis.exit_code(), 1);
    assert!(analysis.permissions.is_none());
    let text = m.report("/opt/crt1.o", false);
    assert!(text.contains("not runnable"), "{text}");
    assert!(!text.contains("no problems found"), "{text}");
    let core = m.diagnose("/opt/core").unwrap();
    assert_eq!(core.not_a_program.as_deref(), Some("this is a core dump, not a program"));
}

#[test]
fn a_foreign_program_is_told_apart_from_a_compatible_one() {
    let mut m = machine();
    m.add("/opt/arm", Image { machine: 0x00b7, ..image() }.build());
    m.add("/opt/i386", Image { class: Class::Elf32, machine: 0x03, ..image() }.build());
    let arm = m.diagnose("/opt/arm").unwrap();
    let arch = arm.arch.as_ref().unwrap();
    assert!(!arch.compatible && !arch.exact);
    assert_eq!(arch.name, "AArch64");
    assert_eq!(arch.host_name, Some("x86-64"));
    assert_eq!(arm.exit_code(), 1);
    assert!(m.report("/opt/arm", false).contains("this system is x86-64\n"));
    let i386 = m.diagnose("/opt/i386").unwrap();
    let arch = i386.arch.as_ref().unwrap();
    assert!(arch.compatible && !arch.exact);
    assert_eq!(i386.exit_code(), 0);
    let text = m.report("/opt/i386", false);
    assert!(text.contains("compatible with x86-64 (needs multilib support)"), "{text}");
    m.arch = "pdp11";
    assert!(m.report("/opt/arm", false).contains("host architecture unknown"));
}

// ---------------------------------------------------------------------------
// Everything else
// ---------------------------------------------------------------------------

#[test]
fn a_missing_file_is_an_io_error() {
    assert!(machine().diagnose("/definitely/not/a/real/path").is_err());
    let target = Target::Unreadable("No such file or directory (os error 2)".to_string());
    match analyze("/definitely/not/a/real/path", &target) {
        Err(error) => assert_eq!(error.message(), "No such file or directory (os error 2)"),
        Ok(_) => panic!("nothing to read"),
    }
}

#[test]
fn a_directory_cannot_be_diagnosed() {
    let analysis = match analyze("/tmp", &Target::Directory).unwrap() {
        Inspection::Settled(analysis) => analysis,
        other => panic!("{other:?}"),
    };
    assert!(!analysis.is_analyzable());
    assert_eq!(analysis.exit_code(), 2);
    assert!(matches!(
        &analysis.kind,
        TargetKind::NotElf { description } if description == "this is a directory, not a program"
    ));
}

#[test]
fn non_elf_files_are_explained() {
    let mut m = machine();
    m.add("/tmp/notes.txt", b"just some text\n".to_vec());
    m.add("/tmp/empty", vec![]);
    m.add("/tmp/blob", vec![0, 1, 2, 3]);
    m.add("/tmp/latin1", vec![b'a', 0xe9, b'b']);
    m.add("/tmp/short", b"\x7fELF".to_vec());
    m.add("/tmp/odd", b"\x7fELF\x07\x01\x01\0\0\0\0\0\0\0\0\0".to_vec());
    let look = |path: &str| match m.diagnose(path).unwrap().kind {
        TargetKind::NotElf { description } => description,
        _ => panic!("{path}"),
    };
    assert_eq!(look("/tmp/notes.txt"), "a text file");
    assert_eq!(look("/tmp/empty"), "an empty file");
    assert_eq!(look("/tmp/blob"), "a binary file that is not ELF");
    assert_eq!(look("/tmp/latin1"), "a binary file that is not ELF");
    assert_eq!(look("/tmp/short"), "an ELF file that could not be parsed");
    assert_eq!(
        look("/tmp/odd"),
        "an ELF file that could not be parsed (malformed ELF file: unknown ELF class 7)"
    );
    assert_eq!(m.diagnose("/tmp/notes.txt").unwrap().exit_code(), 2);
    assert_eq!(
        m.report("/tmp/notes.txt", false),
        "WHY DOES THIS PROGRAM NOT WORK?\n\n  /tmp/notes.txt\n  a text file\n\n\
         [!] Not an ELF program\n  a text file\n\n\
         why v0.1 inspects ELF programs and scripts; other file types are not understood yet.\n\n\
         why v0.1 cannot diagnose this file\n"
    );
}

#[test]
fn text_is_told_by_its_first_bytes() {
    let mut m = machine();
    let mut data = vec![b'x'; 600];
    data[599] = 0;
    m.add("/tmp/late", data.clone());
    data[511] = 0;
    m.add("/tmp/early", data);
    let look = |path: &str| match m.diagnose(path).unwrap().kind {
        TargetKind::NotElf { description } => description,
        _ => panic!("{path}"),
    };
    assert_eq!(look("/tmp/late"), "a text file");
    assert_eq!(look("/tmp/early"), "a binary file that is not ELF");
}

#[test]
fn checks_the_env_interpreter_through_path() {
    let mut m = machine();
    m.add("/tmp/script", b"#!/usr/bin/env why-no-such-interpreter\n".to_vec());
    let analysis = m.diagnose("/tmp/script").unwrap();
    assert_eq!(analysis.exit_code(), 1);
    assert_eq!(
        analysis.notes,
        vec!["the shebang uses `env`, so the interpreter is resolved through PATH"]
    );
    let text = m.report("/tmp/script", false);
    assert!(
        text.contains("The interpreter `why-no-such-interpreter` was not found on PATH"),
        "{text}"
    );

    m.link("/usr/local/bin/why-no-such-interpreter", "/x", vec![], 0o644);
    m.add("/usr/bin/why-no-such-interpreter", vec![]);
    let analysis = m.diagnose("/tmp/script").unwrap();
    assert_eq!(analysis.exit_code(), 0);
    assert_eq!(
        analysis.interpreter.as_ref().unwrap().path,
        "/usr/bin/why-no-such-interpreter"
    );
}

#[test]
fn a_script_names_its_interpreter_by_path() {
    let mut m = machine();
    m.add("/tmp/script", b"#! /bin/gone -x\nrest".to_vec());
    let analysis = m.diagnose("/tmp/script").unwrap();
    assert!(matches!(
        &analysis.kind,
        TargetKind::Script { interpreter } if interpreter == "/bin/gone"
    ));
    assert!(analysis.notes.is_empty());
    assert_eq!(analysis.exit_code(), 1);
    let text = m.report("/tmp/script", false);
    assert!(
        text.contains("The interpreter /bin/gone named on line 1 of the script does not exist"),
        "{text}"
    );
    assert!(text.contains("[x] Interpreter\n"), "{text}");
    m.add("/bin/gone", vec![]);
    assert_eq!(m.diagnose("/tmp/script").unwrap().exit_code(), 0);
}

#[test]
fn strips_quotes_in_an_env_split_string() {
    let mut m = machine();
    m.add("/tmp/script", b"#!/usr/bin/env -S \"why-no-such-interpreter\" -O\n".to_vec());
    let text = m.report("/tmp/script", false);
    assert_eq!(m.diagnose("/tmp/script").unwrap().exit_code(), 1, "{text}");
    // The quotes must not end up in the interpreter name.
    assert!(text.contains("why-no-such-interpreter"), "{text}");
    assert!(!text.contains('"'), "{text}");
}

#[test]
fn a_quoted_command_with_spaces_is_noted() {
    let mut m = machine();
    m.add("/tmp/script", b"#!/usr/bin/env -S \"python3 -O\"\n".to_vec());
    let analysis = m.diagnose("/tmp/script").unwrap();
    assert_eq!(analysis.notes.len(), 2);
    assert_eq!(
        analysis.notes[1],
        "`env` treats `python3 -O` as one command name; a shebang argument with spaces needs \
         `-S` and no quoting"
    );
}

#[test]
fn a_shebang_that_is_not_utf8_is_read_all_the_same() {
    let mut m = machine();
    m.add("/tmp/script", b"#!/bin/s\xffh\n".to_vec());
    match m.diagnose("/tmp/script").unwrap().kind {
        TargetKind::Script { interpreter } => assert_eq!(interpreter, "/bin/s\u{fffd}h"),
        _ => panic!("a script"),
    }
}

#[test]
fn colours_go_around_the_text() {
    let mut m = machine();
    m.add("/tmp/notes.txt", b"just some text\n".to_vec());
    let options = Options { ascii: true, ..Options::default() };
    let distro = Distro::detect(None);
    let painter = report::painter_for(&options, false, true);
    assert!(painter.color);
    let analysis = m.diagnose("/tmp/notes.txt").unwrap();
    let text = report::render(&analysis, &options, &distro, &painter);
    assert!(text.starts_with("\x1b[1mWHY DOES THIS PROGRAM NOT WORK?\x1b[0m\n"), "{text}");
    assert!(text.contains("\x1b[33m[!]\x1b[0m \x1b[1mNot an ELF program\x1b[0m\n"), "{text}");
    assert!(!report::painter_for(&options, true, true).color);
    assert!(!report::painter_for(&options, false, false).color);
    let plain = Options { no_color: true, ..Options::default() };
    assert!(!report::painter_for(&plain, false, true).color);
}

#[test]
fn the_summary_agrees_with_the_exit_code() {
    let mut m = machine();
    m.add("/lib/libc.so.6", libc().build());
    m.add("/opt/good", game().build());
    m.link("/opt/bad", "/opt/bad", game().build(), 0o644);
    m.add("/opt/text", b"text".to_vec());
    for (path, code, last) in [
        ("/opt/good", 0, "[ok] no problems found\n"),
        ("/opt/bad", 1, "[x] 1 problem found\n"),
        ("/opt/text", 2, "why v0.1 cannot diagnose this file\n"),
    ] {
        assert_eq!(m.diagnose(path).unwrap().exit_code(), code);
        assert!(m.report(path, false).ends_with(last));
    }
}

#[test]
fn the_more_severe_status_wins() {
    assert_eq!(Status::Fine.worse(Status::Warn), Status::Warn);
    assert_eq!(Status::Fail.worse(Status::Warn), Status::Fail);
    assert_eq!(Status::Info.worse(Status::Fine), Status::Info);
    assert_eq!(Status::Fine.worse(Status::Info), Status::Fine);
}
