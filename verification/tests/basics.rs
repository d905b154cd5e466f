//! The parts of the library, one by one.

use why::analyze::host::{
    arch_compatibility, env_findings, interpreter_arch_mismatch, permission_finding,
    runs_compatibly, Environment, FileFacts,
};
use why::analyze::is_executable;
use why::analyze::link::best_provided;
use why::analyze::script::{env_command, is_env_shebang, read_shebang};
use why::analyze::Status;
use why::cli;
use why::distro::{family_of, Distro, Family};
use why::elf::reader::{Bytes, Endian};
use why::elf::symbols::read_symbols;
use why::elf::{host_machine, host_name, machine_name, split_paths, Class, ElfError, ElfFile};
use why::elf::{ELFCLASS64, ELFDATA2LSB};
use why::report::truncate;
use why::resolve::ElfIdentity;

// ---------------------------------------------------------------------------
// The host
// ---------------------------------------------------------------------------

#[test]
fn detects_the_best_older_version() {
    let provided = vec![
        "GLIBC_2.2.5".to_string(),
        "GLIBC_2.41".to_string(),
        "GLIBC_2.34".to_string(),
    ];
    assert_eq!(
        best_provided(&provided, "GLIBC_2.42").as_deref(),
        Some("GLIBC_2.41")
    );
    assert_eq!(best_provided(&provided, "GLIBC_PRIVATE"), None);
}

#[test]
fn the_best_version_is_older_and_of_the_same_line() {
    let provided: Vec<String> =
        ["A_1.9", "A_1.10", "A_1.+9", "A_1.x", "A_1.", "A_2.1", "A_1.99999999999"]
            .iter()
            .map(|s| s.to_string())
            .collect();
    assert_eq!(best_provided(&provided, "A_1.11").as_deref(), Some("A_1.10"));
    // The last of two that have the same number.
    assert_eq!(best_provided(&provided, "A_1.10").as_deref(), Some("A_1.+9"));
    assert_eq!(best_provided(&provided, "A_1.9"), None);
    assert_eq!(best_provided(&provided, "A_1.x"), None);
    assert_eq!(best_provided(&[].to_vec(), "A_1.9"), None);
}

#[test]
fn recognises_compatible_machines() {
    // 32-bit i386 runs on an x86-64 kernel; the reverse does not hold.
    assert!(runs_compatibly(0x003e, 0x0003));
    assert!(runs_compatibly(0x00b7, 0x0028));
    assert!(!runs_compatibly(0x0003, 0x003e));
    assert!(!runs_compatibly(0x003e, 0x00b7));
}

#[test]
fn a_wider_target_is_not_compatible_with_a_narrower_host() {
    // MIPS and RISC-V use one e_machine for both word sizes, so the class
    // has to decide: a 64-bit target cannot run on a 32-bit host process.
    let riscv = 0x00f3;
    assert!(arch_compatibility(Some(riscv), Some(64), riscv, 32).0);
    assert!(!arch_compatibility(Some(riscv), Some(32), riscv, 64).0);
    assert!(arch_compatibility(Some(riscv), Some(64), riscv, 64).1);

    // The classic x86 pair is unaffected.
    assert!(arch_compatibility(Some(0x003e), Some(64), 0x0003, 32).0);
    assert!(!arch_compatibility(Some(0x003e), Some(64), 0x00b7, 64).0);
}

#[test]
fn nothing_is_held_against_a_target_on_an_unknown_host() {
    assert_eq!(arch_compatibility(None, None, 0x00b7, 64), (true, false));
    assert_eq!(arch_compatibility(Some(0x003e), None, 0x003e, 64), (true, false));
}

#[test]
fn detects_a_loader_of_the_wrong_architecture() {
    let loader = ElfIdentity { class: Class::Elf64, machine: 0x003e };
    // A 32-bit program with a 64-bit loader is broken.
    assert!(interpreter_arch_mismatch(0x0003, Class::Elf32, &loader).is_some());
    // Same machine and class is fine.
    assert!(interpreter_arch_mismatch(0x003e, Class::Elf64, &loader).is_none());
    // Same machine but the wrong word size (x32-style) is still a mismatch.
    assert!(interpreter_arch_mismatch(0x003e, Class::Elf32, &loader).is_some());
    assert_eq!(
        interpreter_arch_mismatch(0x0003, Class::Elf32, &loader),
        Some(("x86-64", "i386"))
    );
}

#[test]
fn any_execute_bit_will_do() {
    let facts = |mode: u32| Some(FileFacts { is_file: true, mode });
    for mode in [0o100, 0o010, 0o001, 0o755] {
        assert!(is_executable(facts(mode)));
    }
    assert!(!is_executable(facts(0o644)));
    assert!(!is_executable(None));
    let finding = permission_finding("/x", facts(0o104755)).unwrap();
    assert_eq!(finding.mode, 0o4755);
    assert!(finding.executable);
    assert!(permission_finding("/x", None).is_none());
}

#[test]
fn notes_the_variables_that_are_set() {
    let env = Environment {
        library_path: Some("/opt/lib".to_string()),
        preload: Some(String::new()),
        debug: Some("libs".to_string()),
    };
    let findings = env_findings(&env);
    assert_eq!(findings.len(), 2);
    assert_eq!(findings[0].variable, "LD_LIBRARY_PATH");
    assert_eq!(findings[0].value, "/opt/lib");
    assert_eq!(findings[0].status, Status::Warn);
    assert_eq!(findings[1].variable, "LD_DEBUG");
    assert_eq!(findings[1].note, "dynamic loader tracing is enabled");
    assert_eq!(findings[1].status, Status::Info);
    let none = Environment { library_path: None, preload: None, debug: None };
    assert!(env_findings(&none).is_empty());
}

// ---------------------------------------------------------------------------
// Scripts
// ---------------------------------------------------------------------------

#[test]
fn skips_env_options_when_finding_the_interpreter() {
    assert_eq!(env_command("/usr/bin/env python3"), "python3");
    assert_eq!(env_command("/usr/bin/env -u FOO python3"), "python3");
    assert_eq!(env_command("/usr/bin/env -C /tmp python3"), "python3");
    assert_eq!(env_command("/usr/bin/env -uFOO python3"), "python3");
    assert_eq!(env_command("/usr/bin/env -C/tmp python3"), "python3");
    assert_eq!(env_command("/usr/bin/env --unset FOO python3"), "python3");
    assert_eq!(env_command("/usr/bin/env --unset=FOO python3"), "python3");
    assert_eq!(env_command("/usr/bin/env --chdir /tmp python3"), "python3");
    assert_eq!(env_command("/usr/bin/env VAR=1 python3"), "python3");
    assert_eq!(env_command("/usr/bin/env -S python3 -u"), "python3");
    assert_eq!(
        env_command("/usr/bin/env --split-string=python3 -u"),
        "python3"
    );
    assert_eq!(env_command("/usr/bin/env -i python3"), "python3");
    assert_eq!(env_command("/usr/bin/env -- python3"), "python3");
    // `-S` splits with shell rules: quotes are stripped and group words.
    assert_eq!(env_command("/usr/bin/env -S \"python3\" -O"), "python3");
    assert_eq!(env_command("/usr/bin/env -S python3 -O"), "python3");
    assert_eq!(env_command("/usr/bin/env -S 'python3' -O"), "python3");
    // A fully quoted command is one word, exactly as env sees it.
    assert_eq!(env_command("/usr/bin/env -S \"python3 -O\""), "python3 -O");
}

#[test]
fn env_edge_cases() {
    assert_eq!(env_command(""), "");
    assert_eq!(env_command("/usr/bin/env"), "");
    assert_eq!(env_command("/usr/bin/env -u"), "");
    assert_eq!(env_command("/usr/bin/env -u FOO"), "");
    assert_eq!(env_command("/usr/bin/env --"), "");
    assert_eq!(env_command("/usr/bin/env -iu FOO perl"), "perl");
    assert_eq!(env_command("/usr/bin/env -ivSperl -w"), "perl");
    assert_eq!(env_command("/usr/bin/env -iS perl"), "perl");
    assert_eq!(env_command("/usr/bin/env -"), "-");
    assert_eq!(env_command("/usr/bin/env -- -x"), "-x");
    assert_eq!(env_command("/usr/bin/env --ignore-environment perl"), "perl");
    assert_eq!(env_command("/usr/bin/env --split-string='perl -w' x"), "perl");
}

#[test]
fn assignments_are_skipped() {
    // Before the options are over, behind them, and in what `-S` splits.
    assert_eq!(env_command("/usr/bin/env A=1 B=2 perl C=3"), "perl");
    assert_eq!(env_command("/usr/bin/env -- A=1"), "");
    assert_eq!(env_command("/usr/bin/env -- A=1 perl"), "perl");
    assert_eq!(env_command("/usr/bin/env -S VAR=1 python3"), "python3");
    assert_eq!(env_command("/usr/bin/env --split-string VAR=1 python3"), "python3");
    assert_eq!(env_command("/usr/bin/env -SVAR=1 python3"), "python3");
    assert_eq!(env_command("/usr/bin/env --split-string=VAR=1 python3"), "python3");
    assert_eq!(env_command("/usr/bin/env '-SA=1 B=2 perl -w' x"), "perl");
    assert_eq!(env_command("/usr/bin/env '--split-string=A=1 perl' x"), "perl");
    assert_eq!(env_command("/usr/bin/env -SA=1"), "");
}

#[test]
fn options_behind_a_split_are_skipped() {
    assert_eq!(env_command("/usr/bin/env -S -i perl -w"), "perl");
    assert_eq!(env_command("/usr/bin/env -S -u FOO perl"), "perl");
    assert_eq!(env_command("/usr/bin/env -S-u FOO perl"), "perl");
    assert_eq!(env_command("/usr/bin/env '-S-i A=1 -- B=2 perl'"), "perl");
    assert_eq!(env_command("/usr/bin/env '-S\"-S A=1 perl\"'"), "perl");
    assert_eq!(env_command("/usr/bin/env -S"), "");
    assert_eq!(env_command("/usr/bin/env --split-string= perl"), "perl");
}

#[test]
fn splits_like_a_shell() {
    let split = |s: &str| -> Vec<String> {
        let chars: Vec<char> = s.chars().collect();
        why::analyze::script::shell_split(&chars)
            .iter()
            .map(|word| word.iter().collect())
            .collect()
    };
    assert_eq!(split("a b\tc\u{a0}d"), vec!["a", "b", "c", "d"]);
    assert_eq!(split("  "), Vec::<String>::new());
    assert_eq!(split("a'b c'd"), vec!["ab cd"]);
    assert_eq!(split("'' x"), vec!["", "x"]);
    assert_eq!(split("\"a\\\"b\" 'c\\'"), vec!["a\"b", "c\\"]);
    assert_eq!(split("a\\ b \\"), vec!["a b", ""]);
    assert_eq!(split("\"open end"), vec!["open end"]);
}

#[test]
fn reads_shebang_lines() {
    assert!(is_env_shebang("/usr/bin/env perl"));
    assert!(is_env_shebang("env perl"));
    assert!(!is_env_shebang("/usr/bin/envoy perl"));
    assert!(!is_env_shebang("/bin/sh env"));
    assert!(!is_env_shebang(""));
    let sh = read_shebang("#!  /bin/sh -e\r");
    assert_eq!(sh.command, "/bin/sh");
    assert!(!sh.via_env);
    let perl = read_shebang("#!#!/usr/bin/env perl");
    assert_eq!(perl.command, "perl");
    assert!(perl.via_env);
    assert_eq!(read_shebang("#!").command, "");
}

// ---------------------------------------------------------------------------
// The command line
// ---------------------------------------------------------------------------

#[test]
fn parses_a_target_and_flags() {
    let options = cli::parse(&["--verbose", "/bin/ls"]).unwrap();
    assert!(options.verbose);
    assert_eq!(options.target, Some("/bin/ls".to_string()));
}

#[test]
fn double_dash_stops_flag_parsing() {
    let options = cli::parse(&["--", "--weird-name"]).unwrap();
    assert_eq!(options.target, Some("--weird-name".to_string()));
}

#[test]
fn cli_rejects_unknown_options() {
    assert!(cli::parse(&["--nope"]).is_err());
    assert_eq!(cli::parse(&["--nope"]).unwrap_err(), "unknown option '--nope'");
    assert!(cli::parse(&["--definitely-not-an-option"]).is_err());
}

#[test]
fn rejects_two_targets() {
    assert!(cli::parse(&["/bin/ls", "/bin/cat"]).is_err());
    assert_eq!(
        cli::parse(&["/bin/ls", "/bin/cat"]).unwrap_err(),
        "unexpected extra argument '/bin/cat'"
    );
}

#[test]
fn every_switch_is_its_own() {
    let options = cli::parse(&["-h", "-V", "-v", "--no-color", "--ascii", "-"]).unwrap();
    assert!(options.show_help && options.show_version && options.verbose);
    assert!(options.no_color && options.ascii);
    assert_eq!(options.target.as_deref(), Some("-"));
    let none = cli::parse(&[]).unwrap();
    assert!(!none.show_help && !none.show_version && !none.verbose);
    assert!(!none.no_color && !none.ascii && none.target.is_none());
    assert!(cli::parse(&["--help"]).unwrap().show_help);
    assert!(cli::parse(&["--version"]).unwrap().show_version);
}

#[test]
fn every_listed_option_is_accepted() {
    let usage = cli::usage();
    for option in ["-v", "--verbose", "--no-color", "--ascii", "-h", "--help", "-V", "--version"] {
        assert!(usage.contains(option), "{option}");
        assert!(cli::parse(&[option]).is_ok(), "{option}");
        let options = cli::parse(&["/bin/ls", option]).unwrap();
        assert_eq!(options.target.as_deref(), Some("/bin/ls"));
    }
    assert!(cli::parse(&["-v"]).unwrap().verbose);
    assert!(cli::parse(&["--no-color"]).unwrap().no_color);
    assert!(cli::parse(&["--ascii"]).unwrap().ascii);
    assert!(cli::parse(&["--help"]).unwrap().show_help);
    assert!(cli::parse(&["-V"]).unwrap().show_version);
    assert_eq!(cli::parse(&["-x"]).unwrap_err(), "unknown option '-x'");
    assert_eq!(cli::parse(&["-"]).unwrap().target.as_deref(), Some("-"));
}

#[test]
fn prints_help() {
    assert!(cli::parse(&["--help"]).unwrap().show_help);
    assert!(cli::usage().contains("USAGE"));
    assert!(cli::usage().contains(why::VERSION));
}

#[test]
fn usage_names_the_version() {
    let usage = cli::usage();
    assert!(usage.starts_with("why 0.1.0 — explains why a Linux program does not work\n\nUSAGE:\n"));
    assert!(usage.contains("    -V, --version    print the version\n"));
    assert!(usage.ends_with("    why --verbose ./some-broken-program\n"));
}

// ---------------------------------------------------------------------------
// Distributions
// ---------------------------------------------------------------------------

#[test]
fn recognises_families() {
    assert_eq!(family_of("arch", "arch"), Family::Arch);
    assert_eq!(family_of("ubuntu", "debian"), Family::Debian);
    assert_eq!(family_of("fedora", ""), Family::Fedora);
    assert_eq!(family_of("alpine", ""), Family::Alpine);
    assert_eq!(family_of("", ""), Family::Unknown);
}

#[test]
fn hints_mention_the_library() {
    let distro = Distro {
        id: "arch".into(),
        name: "Arch".into(),
        family: Family::Arch,
    };
    assert!(distro.search_hint("libfoo.so.1").contains("libfoo.so.1"));
}

#[test]
fn every_family_has_its_search_command() {
    let hint = |family: Family| {
        Distro { id: String::new(), name: String::new(), family }.search_hint("libx.so")
    };
    assert_eq!(hint(Family::Arch), "pacman -F libx.so   (or: pkgfile libx.so)");
    assert_eq!(hint(Family::Debian), "apt-file search libx.so   (or: dpkg -S)");
    assert_eq!(hint(Family::Fedora), "dnf provides '*/libx.so'");
    assert_eq!(hint(Family::Suse), "zypper search --provides libx.so");
    assert_eq!(hint(Family::Alpine), "apk search -v 'so:libx.so'");
    assert_eq!(hint(Family::Gentoo), "pkgfile libx.so");
    assert_eq!(
        hint(Family::Unknown),
        "use your distribution's \"which package provides libx.so\" search"
    );
}

#[test]
fn detects_the_system_by_os_release() {
    let text = "# comment\n\nNAME=x\nID = 'openSUSE-leap'\nPRETTY_NAME=\"openSUSE Leap\"\n\
                ID_LIKE=\"suse\"\nID=second\nbroken line\n";
    let distro = Distro::detect(Some(text));
    assert_eq!(distro.id, "openSUSE-leap");
    assert_eq!(distro.name, "openSUSE Leap");
    assert_eq!(distro.family, Family::Suse);
    let plain = Distro::detect(Some("ID=Gentoo\r\n"));
    assert_eq!(plain.name, "Gentoo");
    assert_eq!(plain.family, Family::Gentoo);
    let none = Distro::detect(None);
    assert_eq!(none.id, "");
    assert_eq!(none.name, "this system");
    assert_eq!(none.family, Family::Unknown);
}

// ---------------------------------------------------------------------------
// ELF
// ---------------------------------------------------------------------------

#[test]
fn rejects_a_non_elf_file() {
    let err = ElfFile::parse_bytes("/tmp/x", b"hello world, not an elf").unwrap_err();
    assert!(matches!(err, ElfError::NotElf));
}

#[test]
fn rejects_an_empty_file() {
    assert!(ElfFile::parse_bytes("/tmp/x", b"").is_err());
}

#[test]
fn rejects_a_truncated_elf_header() {
    let mut data = vec![0u8; 64];
    data[0..4].copy_from_slice(b"\x7fELF");
    data[4] = ELFCLASS64;
    data[5] = ELFDATA2LSB;
    // e_phoff points far past the end of the buffer.
    data[32..40].copy_from_slice(&0xffff_ffffu64.to_le_bytes());
    data[54..56].copy_from_slice(&56u16.to_le_bytes());
    data[56..58].copy_from_slice(&1u16.to_le_bytes());
    assert!(ElfFile::parse_bytes("/tmp/x", &data).is_err());
}

#[test]
fn symbol_reading_stops_at_the_end_of_the_buffer() {
    // Only two Elf64 entries fit, but the metadata claims a million. The
    // reader must stop at the end of the buffer rather than looping on
    // zero-filled reads.
    let mut data = vec![0u8; 48];
    data[0..4].copy_from_slice(&1u32.to_le_bytes());
    data[24..28].copy_from_slice(&2u32.to_le_bytes());
    let b = Bytes::new(&data, Endian::Little);
    let strtab = Bytes::new(b"\0foo\0bar\0", Endian::Little);
    let symbols = read_symbols(&b, Class::Elf64, 0, 1_000_000, 24, &strtab, &[]);
    assert_eq!(symbols.len(), 2);
    assert_eq!(symbols[0].name, "foo");
}

#[test]
fn splits_colon_separated_paths() {
    assert_eq!(split_paths("/a:/b::/c"), vec!["/a", "/b", "/c"]);
    assert!(split_paths("").is_empty());
}

#[test]
fn names_common_machines() {
    assert_eq!(machine_name(0x3e), "x86-64");
    assert_eq!(machine_name(0xb7), "AArch64");
    assert_eq!(machine_name(0x1234), "unknown architecture");
}

#[test]
fn names_the_host() {
    assert_eq!(host_machine("x86_64"), Some(0x3e));
    assert_eq!(host_machine("riscv64"), Some(0xf3));
    assert_eq!(host_machine("pdp11"), None);
    assert_eq!(host_name("aarch64"), "AArch64");
    assert_eq!(host_name("pdp11"), "this machine");
}

#[test]
fn reads_numbers_in_both_orders() {
    let data = [1u8, 2, 3, 4, 5, 6, 7, 8];
    let little = Bytes::new(&data, Endian::Little);
    let big = Bytes::new(&data, Endian::Big);
    assert_eq!(little.u8(7).unwrap(), 8);
    assert_eq!(little.u16(0).unwrap(), 0x0201);
    assert_eq!(big.u16(0).unwrap(), 0x0102);
    assert_eq!(little.u32(1).unwrap(), 0x05040302);
    assert_eq!(big.u32(1).unwrap(), 0x02030405);
    assert_eq!(little.u64(0).unwrap(), 0x0807060504030201);
    assert_eq!(big.u64(0).unwrap(), 0x0102030405060708);
    let error = little.u32(6).unwrap_err();
    assert_eq!((error.offset, error.size, error.len), (6, 4, 8));
    assert!(little.slice(usize::MAX, 2).is_err());
    assert_eq!(little.slice(2, 3).unwrap(), &[3, 4, 5]);
    assert_eq!(little.len(), 8);
    assert!(!little.is_empty());
}

#[test]
fn reads_terminated_strings() {
    let data = b"abc\0\xffdef";
    let b = Bytes::new(data, Endian::Little);
    assert_eq!(b.cstr(0).as_deref(), Some("abc"));
    assert_eq!(b.cstr(1).as_deref(), Some("bc"));
    assert_eq!(b.cstr(3).as_deref(), Some(""));
    // Without a terminator there is no string.
    assert_eq!(b.cstr(5), None);
    assert_eq!(b.cstr(100), None);
    let broken = Bytes::new(b"a\xffb\0", Endian::Little);
    assert_eq!(broken.cstr(0).as_deref(), Some("a\u{fffd}b"));
}

// ---------------------------------------------------------------------------
// The report
// ---------------------------------------------------------------------------

#[test]
fn truncation_keeps_it_short() {
    assert_eq!(truncate("abcdef", 3), "ab…");
    assert_eq!(truncate("abc", 3), "abc");
}

#[test]
fn truncation_counts_characters() {
    assert_eq!(truncate("äöüß", 4), "äöüß");
    assert_eq!(truncate("äöüß", 2), "ä…");
    assert_eq!(truncate("ab", 1), "…");
    assert_eq!(truncate("ab", 0), "…");
}
