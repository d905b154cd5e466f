//! Where libraries are looked for.

use why::conf::{ld_so_conf_dirs, ConfFiles, ConfRequest};
use why::elf::{Class, ElfFile};
use why::resolve::{
    default_dirs, expand_dirs, identify, is_usable, ld_cache, parse_ld_cache, ElfIdentity,
    IdentifyError, Probe, Resolver, SearchOutcome,
};

fn head(class: u8, machine: u16) -> Vec<u8> {
    let mut head = vec![0u8; 20];
    head[..4].copy_from_slice(b"\x7fELF");
    head[4] = class;
    head[5] = 1;
    head[18..20].copy_from_slice(&machine.to_le_bytes());
    head
}

fn file(head: &[u8], key: &str) -> Probe {
    Probe::File { head: head.to_vec(), key: key.to_string() }
}

fn strings(list: &[&str]) -> Vec<String> {
    list.iter().map(|s| s.to_string()).collect()
}

fn host() -> ElfIdentity {
    ElfIdentity { class: Class::Elf64, machine: 0x3e }
}

#[test]
fn parses_ldconfig_output() {
    let text = "5630 libs found in cache `/etc/ld.so.cache'\n\
                \tlibc.so.6 (libc6,x86-64) => /usr/lib/libc.so.6\n\
                \tlibm.so.6 (libc6) => /usr/lib/libm.so.6\n\
                garbage line\n";
    let entries = parse_ld_cache(text);
    assert_eq!(entries.len(), 2);
    assert_eq!(entries[0].name, "libc.so.6");
    assert_eq!(entries[0].arch, "libc6,x86-64");
    assert_eq!(entries[0].path, "/usr/lib/libc.so.6");
}

#[test]
fn skips_cache_lines_without_a_path() {
    let text = "a (b) =>  \n(c) => /x\nd (e) => /y (f) => /z\r\n";
    let entries = parse_ld_cache(text);
    assert_eq!(entries.len(), 1);
    assert_eq!(entries[0].name, "d");
    assert_eq!(entries[0].arch, "e");
    assert_eq!(entries[0].path, "/y (f) => /z");
}

#[test]
fn takes_the_first_listing_that_says_anything() {
    let listings = strings(&["garbage\n", "a (b) => /c\n", "d (e) => /f\n"]);
    let entries = ld_cache(&listings);
    assert_eq!(entries.len(), 1);
    assert_eq!(entries[0].path, "/c");
    assert!(ld_cache(&strings(&["", "x"])).is_empty());
}

#[test]
fn identifies_files_by_their_first_bytes() {
    assert_eq!(identify(&head(2, 0x3e)), Ok(host()));
    let mut big = head(1, 0);
    big[5] = 2;
    big[18] = 0x00;
    big[19] = 0x14;
    assert_eq!(identify(&big), Ok(ElfIdentity { class: Class::Elf32, machine: 0x14 }));
    assert_eq!(identify(&head(2, 0x3e)[..19]), Err(IdentifyError::Unreadable));
    assert_eq!(identify(&[]), Err(IdentifyError::Unreadable));
    assert_eq!(identify(&head(3, 0x3e)), Err(IdentifyError::NotElf));
    let mut odd = head(2, 0x3e);
    odd[5] = 3;
    assert_eq!(identify(&odd), Err(IdentifyError::NotElf));
    assert_eq!(identify(b"this is not an ELF object"), Err(IdentifyError::NotElf));
    assert_eq!(IdentifyError::NotElf.message(), "not an ELF object");
    assert_eq!(IdentifyError::Unreadable.message(), "unreadable");
}

#[test]
fn never_returns_a_library_of_the_wrong_class() {
    // On a multilib system both libc.so.6 files exist; the loader picks by
    // class, so a 32-bit program must never be handed a 64-bit library.
    let resolver = Resolver::new(None, vec![], &vec![]);
    let wanted = ElfIdentity { class: Class::Elf32, machine: 0x03 };
    let places = resolver.candidates("libc.so.6", &[], &[]);
    let both = [file(&head(2, 0x3e), "/lib/a"), file(&head(1, 0x03), "/usr/lib/b")];
    match resolver.search("libc.so.6", Some(wanted), &[], &[], &both) {
        SearchOutcome::Found(path) => assert_eq!(path, places[1]),
        other => panic!("unexpected outcome {other:?}"),
    }
    match resolver.search("libc.so.6", Some(wanted), &[], &[], &both[..1]) {
        SearchOutcome::WrongArchitecture(path, found) => {
            assert_eq!(path, places[0]);
            assert_ne!(found, wanted);
        }
        other => panic!("unexpected outcome {other:?}"),
    }
}

#[test]
fn a_non_elf_file_is_not_a_resolution() {
    let resolver = Resolver::new(None, vec![], &vec![]);
    let probes = [file(b"this is not an ELF object, just text\n", "/tmp/x")];
    let outcome = resolver.search(
        "libfakeshadow.so.1",
        Some(host()),
        &strings(&["/tmp/dir"]),
        &[],
        &probes,
    );
    assert!(
        matches!(outcome, SearchOutcome::Unusable(_, "not an ELF object")),
        "{outcome:?}"
    );
}

#[test]
fn a_real_library_behind_a_decoy_is_still_found() {
    let resolver = Resolver::new(None, vec![], &vec![]);
    let dirs = strings(&["/base/decoy", "/base/real"]);
    let probes = [file(b"not elf\n", "/base/decoy/x"), file(&head(2, 0x3e), "/base/real/x")];
    match resolver.search("libdecoy.so.1", Some(host()), &dirs, &[], &probes) {
        SearchOutcome::Found(path) => assert_eq!(path, "/base/real/libdecoy.so.1"),
        other => panic!("expected the real library, got {other:?}"),
    }
}

#[test]
fn does_not_invent_libraries() {
    let resolver = Resolver::new(None, vec![], &vec![]);
    let name = "libdefinitely-not-a-real-library.so.99";
    assert!(matches!(resolver.search(name, None, &[], &[], &[]), SearchOutcome::Missing));
    let probes: Vec<Probe> =
        resolver.candidates(name, &[], &[]).iter().map(|_| Probe::Absent).collect();
    assert!(matches!(resolver.search(name, None, &[], &[], &probes), SearchOutcome::Missing));
}

#[test]
fn a_wrong_architecture_is_a_nearer_miss_than_no_elf_object() {
    let resolver = Resolver::new(None, vec![], &vec![]);
    let probes = [
        file(b"not elf, and longer than twenty bytes", "/a"),
        Probe::Absent,
        file(&head(1, 0x03), "/b"),
        file(&head(1, 0x28), "/c"),
    ];
    match resolver.search("x", Some(host()), &[], &[], &probes) {
        SearchOutcome::WrongArchitecture(path, found) => {
            assert_eq!(path, "/lib64/x");
            assert_eq!(found.machine, 0x03);
        }
        other => panic!("{other:?}"),
    }
}

#[test]
fn probes_behind_a_find_change_nothing() {
    let resolver = Resolver::new(None, vec![], &vec![]);
    let probes = [
        file(b"decoy", "/a"),
        file(&head(2, 0x3e), "/b"),
        file(&head(2, 0x3e), "/c"),
        file(&head(1, 0x03), "/d"),
    ];
    let all = resolver.search("x", Some(host()), &[], &[], &probes);
    assert_eq!(all, SearchOutcome::Found("/usr/lib/x".to_string()));
    assert_eq!(resolver.search("x", Some(host()), &[], &[], &probes[..2]), all);
    assert!(is_usable(&probes[1], Some(host())));
    assert!(!is_usable(&probes[0], Some(host())));
    assert!(!is_usable(&probes[3], Some(host())));
    assert!(is_usable(&probes[0], None));
    assert!(!is_usable(&Probe::Absent, None));
}

#[test]
fn anything_will_do_where_nothing_is_wanted() {
    let resolver = Resolver::new(None, vec![], &vec![]);
    let probes = [Probe::Absent, file(b"", "/a")];
    assert_eq!(
        resolver.search("x", None, &[], &[], &probes),
        SearchOutcome::Found("/usr/lib/x".to_string())
    );
}

#[test]
fn searches_in_the_order_of_the_loader() {
    let cache = parse_ld_cache("\tx.so (libc6) => /cached/x.so\n\ty.so (libc6) => /cached/y.so\n");
    let resolver =
        Resolver::new(Some("/env/a::/env/b/"), cache, &strings(&["/conf", "/lib/", "/conf/."]));
    assert_eq!(resolver.env_dirs(), strings(&["/env/a", "/env/b/"]).as_slice());
    let places =
        resolver.candidates("x.so", &strings(&["/rpath"]), &strings(&["/runpath", "rel"]));
    assert_eq!(places[..7], strings(&[
        "/rpath/x.so",
        "/env/a/x.so",
        "/env/b/x.so",
        "/runpath/x.so",
        "rel/x.so",
        "/cached/x.so",
        "/lib/x.so",
    ])[..]);
    assert_eq!(places.last().unwrap(), "/conf/x.so");
    assert_eq!(resolver.candidates("./x.so", &strings(&["/rpath"]), &[]), strings(&["./x.so"]));
}

#[test]
fn the_default_directories_hold_no_path_twice() {
    let dirs = default_dirs(&strings(&["/usr/lib", "/opt/lib", "//opt/./lib/", "/usr//lib64"]));
    assert_eq!(dirs.len(), 22);
    assert_eq!(dirs[0], "/lib");
    assert_eq!(dirs[4], "/usr/local/lib");
    assert_eq!(dirs[5], "/lib/x86_64-linux-gnu");
    assert_eq!(dirs[20], "/usr/lib/loongarch64-linux-gnu");
    assert_eq!(dirs[21], "/opt/lib");
}

/// A 64-bit object without any tables.
fn bare(path: &str, class: u8) -> ElfFile {
    let mut data = vec![0u8; 64];
    data[..20].copy_from_slice(&head(class, 0x3e));
    data[16] = 3;
    ElfFile::parse_bytes(path, &data).unwrap()
}

#[test]
fn expands_origin() {
    let elf = bare("/opt/app/bin/game", 2);
    let dirs = expand_dirs(&elf, &strings(&["$ORIGIN/../lib", "/usr/lib"]), "x86_64");
    assert_eq!(dirs[0], "/opt/app/bin/../lib");
    assert_eq!(dirs[1], "/usr/lib");
}

#[test]
fn expands_every_variable() {
    let raw = strings(&["${ORIGIN}/$LIB/${LIB}/$PLATFORM/${PLATFORM}:$ORIGIN"]);
    let expand = |path: &str, class: u8, arch: &str| {
        expand_dirs(&bare(path, class), &raw, arch).remove(0)
    };
    assert_eq!(expand("/a/b", 2, "x86_64"), "/a/lib64/lib64/x86-64/x86-64:/a");
    assert_eq!(expand("/a/b", 1, "x86_64"), "/a/lib/lib/x86-64/x86-64:/a");
    assert_eq!(expand("/a/b", 2, "aarch64"), "/a/lib/lib/AArch64/AArch64:/a");
    assert_eq!(expand("/", 2, "pdp11"), "./lib/lib/this machine/this machine:.");
    assert_eq!(expand("b", 2, "x86_64"), "/lib64/lib64/x86-64/x86-64:");
}

// ---------------------------------------------------------------------------
// ld.so.conf
// ---------------------------------------------------------------------------

struct Disk {
    files: Vec<(&'static str, &'static str)>,
    dirs: Vec<(&'static str, Vec<&'static str>)>,
}

/// The directories, and what had to be looked at.
fn configured(disk: &Disk) -> (Vec<String>, Vec<String>) {
    let mut known = ConfFiles { files: vec![], dirs: vec![] };
    let mut asked = vec![];
    loop {
        match ld_so_conf_dirs(&known) {
            Ok(dirs) => return (dirs, asked),
            Err(ConfRequest::File(path)) => {
                asked.push(path.clone());
                let text = disk.files.iter().find(|f| f.0 == path).map(|f| f.1.to_string());
                known.files.push((path, text));
            }
            Err(ConfRequest::Directory(path)) => {
                asked.push(path.clone());
                let names = disk.dirs.iter().find(|d| d.0 == path).map(|d| strings(&d.1));
                known.dirs.push((path, names));
            }
        }
    }
}

#[test]
fn reads_configured_directories_in_order() {
    let disk = Disk {
        files: vec![
            (
                "/etc/ld.so.conf",
                "/first # comment\n\ninclude /etc/ld.so.conf.d/*.conf\nrelative\n  /last  \n",
            ),
            ("/etc/ld.so.conf.d/b.conf", "/b\r\n"),
            ("/etc/ld.so.conf.d/a.conf", "# nothing\n/a\n"),
            ("/etc/ld.so.conf.d/z.txt", "/z\n"),
        ],
        dirs: vec![("/etc/ld.so.conf.d", vec!["z.txt", "b.conf", "a.conf"])],
    };
    let (dirs, asked) = configured(&disk);
    assert_eq!(dirs, strings(&["/first", "/a", "/b", "/last"]));
    assert_eq!(
        asked,
        strings(&[
            "/etc/ld.so.conf",
            "/etc/ld.so.conf.d",
            "/etc/ld.so.conf.d/a.conf",
            "/etc/ld.so.conf.d/b.conf",
        ])
    );
}

#[test]
fn a_configuration_file_is_read_once_and_cycles_end() {
    let disk = Disk {
        files: vec![
            ("/etc/ld.so.conf", "include /etc/a.conf\ninclude /etc//a.conf\n/x\n"),
            ("/etc/a.conf", "/a\ninclude /etc/ld.so.conf\n"),
        ],
        dirs: vec![],
    };
    assert_eq!(configured(&disk).0, strings(&["/a", "/x"]));
    let none = Disk { files: vec![], dirs: vec![] };
    assert_eq!(configured(&none), (vec![], strings(&["/etc/ld.so.conf"])));
}

#[test]
fn configuration_files_do_not_nest_forever() {
    let disk = Disk {
        files: vec![
            ("/etc/ld.so.conf", "/d0\ninclude /1\n"),
            ("/1", "/d1\ninclude /2\n"),
            ("/2", "/d2\ninclude /3\n"),
            ("/3", "/d3\ninclude /4\n"),
            ("/4", "/d4\ninclude /5\n"),
            ("/5", "/d5\ninclude /6\n"),
            ("/6", "/d6\ninclude /7\n"),
            ("/7", "/d7\ninclude /8\n"),
            ("/8", "/d8\ninclude /9\n"),
            ("/9", "/d9\n"),
        ],
        dirs: vec![],
    };
    let (dirs, _) = configured(&disk);
    assert_eq!(dirs.len(), 9);
    assert_eq!(dirs[8], "/d8");
}
