//! The search for a library: where it is looked for, and what is taken.

use vstd::prelude::*;
use super::words;
use crate::elf;
use crate::elf::{Class, ElfView};
use crate::path;
use crate::resolve;
use crate::resolve::{
    CacheEntryView, ElfIdentity, IdentifyError, OutcomeView, ProbeView, ResolverView,
};
use crate::text;

verus! {

// ---------------------------------------------------------------------------
// Where a library is looked for
// ---------------------------------------------------------------------------

/// The path that a cache entry gives for a name.
pub open spec fn path_for(name: Seq<char>) -> spec_fn(CacheEntryView) -> Option<Seq<char>> {
    |entry: CacheEntryView|
        if entry.name == name {
            Some(entry.path)
        } else {
            None
        }
}

/// A name in a directory.
pub open spec fn place_for(name: Seq<char>) -> spec_fn(Seq<char>) -> Seq<char> {
    |dir: Seq<char>| path::join(dir, name)
}

proof fn lemma_cached(cache: Seq<CacheEntryView>, name: Seq<char>)
    ensures
        resolve::cached(cache, name) == cache.filter_map(path_for(name)),
    decreases cache.len(),
{
    if cache.len() > 0 {
        lemma_cached(cache.drop_last(), name);
        let rest = resolve::cached(cache.drop_last(), name);
        assert(rest.push(cache.last().path) =~= rest + seq![cache.last().path]);
    }
}

/// A name without a slash is looked for in the directories of `DT_RPATH`, in
/// those of `LD_LIBRARY_PATH`, in those of `DT_RUNPATH`, at the path of every
/// cache entry of that name, and in the default directories, in this order. One
/// with a slash is a path, and is looked for nowhere else.
pub proof fn places_come_in_the_order_of_the_loader(
    r: ResolverView,
    name: Seq<char>,
    rpath: Seq<Seq<char>>,
    runpath: Seq<Seq<char>>,
)
    ensures
        !name.contains('/') ==> r.places(name, rpath, runpath) == rpath.map_values(place_for(name))
            + r.env_dirs.map_values(place_for(name)) + runpath.map_values(place_for(name))
            + r.cache.filter_map(path_for(name)) + r.defaults.map_values(place_for(name)),
        name.contains('/') ==> r.places(name, rpath, runpath) == seq![name],
{
    lemma_cached(r.cache, name);
    assert(resolve::in_each(rpath, name) =~= rpath.map_values(place_for(name)));
    assert(resolve::in_each(runpath, name) =~= runpath.map_values(place_for(name)));
    assert(resolve::in_each(r.env_dirs, name) =~= r.env_dirs.map_values(place_for(name)));
    assert(resolve::in_each(r.defaults, name) =~= r.defaults.map_values(place_for(name)));
}

/// How many of the first `n` cache entries have a name.
pub open spec fn entries_before(cache: Seq<CacheEntryView>, name: Seq<char>, n: int) -> nat
    decreases n,
{
    if n <= 0 {
        0
    } else {
        entries_before(cache, name, n - 1) + (if cache[n - 1].name == name {
            1nat
        } else {
            0nat
        })
    }
}

proof fn lemma_entry_place(cache: Seq<CacheEntryView>, name: Seq<char>, i: int)
    requires
        0 <= i < cache.len(),
        cache[i].name == name,
    ensures
        entries_before(cache, name, i) < resolve::cached(cache, name).len(),
        resolve::cached(cache, name)[entries_before(cache, name, i) as int] == cache[i].path,
    decreases cache.len(),
{
    let front = cache.drop_last();
    lemma_entries(cache);
    if i < front.len() {
        lemma_entry_place(front, name, i);
        lemma_entries_front(cache, name, i);
    } else {
        lemma_entries_count(front, name);
        lemma_entries_front(cache, name, i);
    }
}

proof fn lemma_entries(cache: Seq<CacheEntryView>)
    ensures
        forall|i: int| 0 <= i < cache.len() - 1 ==> #[trigger] cache.drop_last()[i] == cache[i],
{
}

proof fn lemma_entries_front(cache: Seq<CacheEntryView>, name: Seq<char>, n: int)
    requires
        n < cache.len(),
    ensures
        entries_before(cache.drop_last(), name, n) == entries_before(cache, name, n),
    decreases n,
{
    if n > 0 {
        lemma_entries_front(cache, name, n - 1);
        assert(cache.drop_last()[n - 1] == cache[n - 1]);
    }
}

proof fn lemma_entries_count(cache: Seq<CacheEntryView>, name: Seq<char>)
    ensures
        entries_before(cache, name, cache.len() as int) == resolve::cached(cache, name).len(),
    decreases cache.len(),
{
    if cache.len() > 0 {
        lemma_entries_count(cache.drop_last(), name);
        lemma_entries_front(cache, name, cache.len() - 1);
    }
}

/// Every cache entry of a name is a candidate: behind the places of the three
/// directory lists and the entries of that name in front of it, and before the
/// default directories.
pub proof fn every_cache_entry_is_a_candidate(
    r: ResolverView,
    name: Seq<char>,
    rpath: Seq<Seq<char>>,
    runpath: Seq<Seq<char>>,
    i: int,
)
    requires
        !name.contains('/'),
        0 <= i < r.cache.len(),
        r.cache[i].name == name,
    ensures
        ({
            let places = r.places(name, rpath, runpath);
            let listed = rpath.len() + r.env_dirs.len() + runpath.len();
            let at = listed + entries_before(r.cache, name, i);
            &&& listed <= at < places.len() - r.defaults.len()
            &&& places[at as int] == r.cache[i].path
        }),
{
    lemma_entry_place(r.cache, name, i);
}

/// Of two cache entries of a name, the one in front is the earlier candidate.
pub proof fn cache_entries_keep_their_order(
    cache: Seq<CacheEntryView>,
    name: Seq<char>,
    i: int,
    j: int,
)
    requires
        0 <= i < j,
        cache[i].name == name,
    ensures
        entries_before(cache, name, i) < entries_before(cache, name, j),
    decreases j,
{
    if i < j - 1 {
        cache_entries_keep_their_order(cache, name, i, j - 1);
    }
}

/// Every directory of a list gives a candidate, in the order of the lists.
pub proof fn every_directory_gives_a_candidate(
    r: ResolverView,
    name: Seq<char>,
    rpath: Seq<Seq<char>>,
    runpath: Seq<Seq<char>>,
    i: int,
)
    requires
        !name.contains('/'),
    ensures
        ({
            let places = r.places(name, rpath, runpath);
            let env = rpath.len() as int;
            let run = env + r.env_dirs.len();
            let last = places.len() - r.defaults.len();
            &&& 0 <= i < rpath.len() ==> places[i] == path::join(rpath[i], name)
            &&& 0 <= i < r.env_dirs.len() ==> places[env + i] == path::join(r.env_dirs[i], name)
            &&& 0 <= i < runpath.len() ==> places[run + i] == path::join(runpath[i], name)
            &&& 0 <= i < r.defaults.len() ==> places[last + i] == path::join(r.defaults[i], name)
            &&& last >= run + runpath.len()
        }),
{
}

// ---------------------------------------------------------------------------
// What is taken
// ---------------------------------------------------------------------------

/// The number that stands for a class in the fifth byte of a file.
pub open spec fn class_byte(class: Class) -> u8 {
    if class is Elf32 {
        1
    } else {
        2
    }
}

/// The first bytes are those of an ELF object: the magic, a class and a byte
/// order that there are, and enough to tell the machine.
pub open spec fn is_elf_head(head: Seq<u8>) -> bool {
    &&& head.len() >= 20
    &&& head[0] == 0x7f && head[1] == 0x45 && head[2] == 0x4c && head[3] == 0x46
    &&& head[4] == 1 || head[4] == 2
    &&& head[5] == 1 || head[5] == 2
}

/// The machine that the first bytes tell, in the byte order that they tell.
pub open spec fn head_machine(head: Seq<u8>) -> int {
    if head[5] == 1 {
        head[18] + 0x100 * head[19]
    } else {
        0x100 * head[18] + head[19]
    }
}

/// The first bytes are those of an ELF object of this class and machine.
pub open spec fn head_fits(head: Seq<u8>, want: ElfIdentity) -> bool {
    is_elf_head(head) && head[4] == class_byte(want.class) && head_machine(head) == want.machine
}

/// The identity of a file is told by its first bytes: an error where they are
/// too few, another where they are not those of an ELF object.
pub proof fn identities_are_told_by_the_first_bytes(head: Seq<u8>, want: ElfIdentity)
    ensures
        resolve::identified(head) == Ok::<ElfIdentity, IdentifyError>(want) <==> head_fits(head, want),
        resolve::identified(head) is Ok <==> is_elf_head(head),
        head.len() < 20 ==> resolve::identified(head) == Err::<ElfIdentity, IdentifyError>(
            IdentifyError::Unreadable,
        ),
        head.len() >= 20 && !is_elf_head(head) ==> resolve::identified(head) == Err::<
            ElfIdentity,
            IdentifyError,
        >(IdentifyError::NotElf),
        IdentifyError::Unreadable.text() == "unreadable"@,
        IdentifyError::NotElf.text() == "not an ELF object"@,
{
    if head.len() >= 20 {
        let magic = head.take(4);
        assert(magic == elf::magic() <==> head[0] == 0x7f && head[1] == 0x45 && head[2] == 0x4c
            && head[3] == 0x46) by {
            if magic == elf::magic() {
                assert(magic[0] == 0x7f && magic[1] == 0x45 && magic[2] == 0x4c && magic[3] == 0x46);
            }
            if head[0] == 0x7f && head[1] == 0x45 && head[2] == 0x4c && head[3] == 0x46 {
                assert(magic =~= elf::magic());
            }
        }
        super::two_bytes_write_a_number(head.subrange(18, 20));
    }
}

/// A regular file stands at place `i`.
pub open spec fn is_there(probes: Seq<ProbeView>, n: int, i: int) -> bool {
    0 <= i < n && i < probes.len() && probes[i] is File
}

/// What stands at place `i` is what the loader would take.
pub open spec fn is_right(probes: Seq<ProbeView>, n: int, want: ElfIdentity, i: int) -> bool {
    is_there(probes, n, i) && head_fits(probes[i]->head, want)
}

/// The first place at which a right object stands is found. Where there is
/// none, the first ELF object that stands at a place is of the wrong
/// architecture; where there is none either, the first file cannot be used, and
/// where there is no file, the library is missing.
pub proof fn the_search_finds_what_the_loader_would(
    candidates: Seq<Seq<char>>,
    probes: Seq<ProbeView>,
    want: ElfIdentity,
    i: int,
)
    ensures
        ({
            let n = candidates.len() as int;
            let outcome = resolve::searched(candidates, probes, Some(want));
            &&& is_right(probes, n, want, i) && (forall|k: int|
                0 <= k < i ==> !#[trigger] is_right(probes, n, want, k)) ==> outcome
                == OutcomeView::Found(candidates[i])
            &&& (forall|k: int| !#[trigger] is_right(probes, n, want, k)) ==> {
                &&& is_there(probes, n, i) && is_elf_head(probes[i]->head) && (forall|k: int|
                    0 <= k < i ==> !(#[trigger] is_there(probes, n, k) && is_elf_head(
                        probes[k]->head,
                    ))) ==> (outcome matches OutcomeView::WrongArchitecture(path, found) && path
                    == candidates[i] && head_fits(probes[i]->head, found))
                &&& is_there(probes, n, i) && (forall|k: int|
                    0 <= k < i ==> !#[trigger] is_there(probes, n, k)) && (forall|k: int|
                    #[trigger] is_there(probes, n, k) ==> !is_elf_head(probes[k]->head)) ==> outcome
                    == OutcomeView::Unusable(
                    candidates[i],
                    if probes[i]->head.len() < 20 {
                        "unreadable"@
                    } else {
                        "not an ELF object"@
                    },
                )
                &&& (forall|k: int| !#[trigger] is_there(probes, n, k)) ==> outcome
                    == OutcomeView::Missing
            }
        }),
{
    let n = candidates.len() as int;
    let wanted = Some(want);
    assert forall|k: int| 0 <= k < n implies (#[trigger] resolve::verdict_at(probes, wanted, k)
        is Usable) == is_right(probes, n, want, k) by {
        if is_there(probes, n, k) {
            identities_are_told_by_the_first_bytes(probes[k]->head, want);
        }
    }
    assert forall|k: int| 0 <= k < n implies (#[trigger] resolve::verdict_at(probes, wanted, k)
        is Mismatched) == (is_there(probes, n, k) && is_elf_head(probes[k]->head) && !is_right(
        probes,
        n,
        want,
        k,
    )) by {
        if is_there(probes, n, k) {
            identities_are_told_by_the_first_bytes(probes[k]->head, want);
        }
    }
    assert forall|k: int| 0 <= k < n implies (#[trigger] resolve::verdict_at(probes, wanted, k)
        is Broken) == (is_there(probes, n, k) && !is_elf_head(probes[k]->head)) by {
        if is_there(probes, n, k) {
            identities_are_told_by_the_first_bytes(probes[k]->head, want);
        }
    }
    let u = resolve::usable(probes, wanted);
    let m = resolve::mismatched(probes, wanted);
    let b = resolve::broken(probes, wanted);
    resolve::lemma_first_below(n, u);
    resolve::lemma_first_below(n, m);
    resolve::lemma_first_below(n, b);
    if is_right(probes, n, want, i) && (forall|k: int|
        0 <= k < i ==> !#[trigger] is_right(probes, n, want, k)) {
        assert(u(i));
        let t = resolve::taken(candidates.len(), probes, wanted)->0;
        assert(u(t));
        assert(is_right(probes, n, want, t));
        assert(t == i);
    }
    if forall|k: int| !#[trigger] is_right(probes, n, want, k) {
        assert(resolve::first_below(n, u) is None) by {
            if resolve::first_below(n, u) is Some {
                let t = resolve::first_below(n, u)->0;
                assert(u(t));
                assert(is_right(probes, n, want, t));
            }
        }
        if is_there(probes, n, i) && is_elf_head(probes[i]->head) && (forall|k: int|
            0 <= k < i ==> !(#[trigger] is_there(probes, n, k) && is_elf_head(probes[k]->head))) {
            assert(!is_right(probes, n, want, i));
            assert(m(i));
            let t = resolve::first_below(n, m)->0;
            assert(m(t));
            assert(is_there(probes, n, t));
            assert(t == i);
            let found = resolve::verdict_at(probes, wanted, i)->Mismatched_0;
            identities_are_told_by_the_first_bytes(probes[i]->head, found);
        }
        if forall|k: int| #[trigger] is_there(probes, n, k) ==> !is_elf_head(probes[k]->head) {
            assert(resolve::first_below(n, m) is None) by {
                if resolve::first_below(n, m) is Some {
                    let t = resolve::first_below(n, m)->0;
                    assert(m(t));
                    assert(is_there(probes, n, t));
                }
            }
            if is_there(probes, n, i) && (forall|k: int|
                0 <= k < i ==> !#[trigger] is_there(probes, n, k)) {
                assert(b(i));
                let t = resolve::first_below(n, b)->0;
                assert(b(t));
                assert(is_there(probes, n, t));
                assert(t == i);
                identities_are_told_by_the_first_bytes(probes[i]->head, want);
            }
            if forall|k: int| !#[trigger] is_there(probes, n, k) {
                if resolve::first_below(n, b) is Some {
                    let t = resolve::first_below(n, b)->0;
                    assert(b(t));
                    assert(is_there(probes, n, t));
                }
            }
        }
    }
}

/// Where nothing is said of the class and the machine, the first file is found.
pub proof fn any_file_will_do_where_nothing_is_wanted(
    candidates: Seq<Seq<char>>,
    probes: Seq<ProbeView>,
    i: int,
)
    requires
        is_there(probes, candidates.len() as int, i),
        forall|k: int| 0 <= k < i ==> !#[trigger] is_there(probes, candidates.len() as int, k),
    ensures
        resolve::searched(candidates, probes, None) == OutcomeView::Found(candidates[i]),
{
    let n = candidates.len() as int;
    let u = resolve::usable(probes, None);
    resolve::lemma_first_below(n, u);
    assert(u(i));
    let t = resolve::first_below(n, u)->0;
    assert(u(t));
    assert(is_there(probes, n, t));
}

/// A cache entry that leads to a right object is enough: the library is found,
/// at that path or at a place in front of it.
pub proof fn a_right_cache_entry_is_enough(
    r: ResolverView,
    name: Seq<char>,
    rpath: Seq<Seq<char>>,
    runpath: Seq<Seq<char>>,
    probes: Seq<ProbeView>,
    want: ElfIdentity,
    i: int,
)
    requires
        !name.contains('/'),
        0 <= i < r.cache.len(),
        r.cache[i].name == name,
        ({
            let at = rpath.len() + r.env_dirs.len() + runpath.len() + entries_before(
                r.cache,
                name,
                i,
            );
            at < probes.len() && probes[at as int] is File && head_fits(
                probes[at as int]->head,
                want,
            )
        }),
    ensures
        resolve::searched(r.places(name, rpath, runpath), probes, Some(want)) is Found,
{
    let places = r.places(name, rpath, runpath);
    let n = places.len() as int;
    let at = rpath.len() + r.env_dirs.len() + runpath.len() + entries_before(r.cache, name, i);
    every_cache_entry_is_a_candidate(r, name, rpath, runpath, i);
    let u = resolve::usable(probes, Some(want));
    resolve::lemma_first_below(n, u);
    identities_are_told_by_the_first_bytes(probes[at as int]->head, want);
    assert(u(at as int));
}

// ---------------------------------------------------------------------------
// Lists of directories
// ---------------------------------------------------------------------------

proof fn lemma_nonempty(pieces: Seq<Seq<char>>)
    ensures
        elf::nonempty(pieces) == pieces.filter(|p: Seq<char>| p.len() > 0),
    decreases pieces.len(),
{
    reveal(Seq::filter);
    if pieces.len() > 0 {
        lemma_nonempty(pieces.drop_last());
    }
}

/// A list of directories with colons between them is read as the directories,
/// in their order, but for the empty ones.
pub proof fn directory_lists_are_parted_at_colons(dirs: Seq<Seq<char>>)
    requires
        dirs.len() > 0,
        forall|i: int| 0 <= i < dirs.len() ==> !(#[trigger] dirs[i]).contains(':'),
    ensures
        elf::paths_in(words::joined_by(dirs, ':')) == dirs.filter(|p: Seq<char>| p.len() > 0),
        resolve::env_paths(Some(words::joined_by(dirs, ':'))) == dirs.filter(
            |p: Seq<char>| p.len() > 0,
        ),
        resolve::env_paths(None) == Seq::<Seq<char>>::empty(),
{
    words::pieces_come_out_again(dirs, ':');
    lemma_nonempty(dirs);
}

/// The directories of Debian's multiarch layout.
pub open spec fn triples() -> Seq<Seq<char>> {
    seq![
        "x86_64-linux-gnu"@,
        "i386-linux-gnu"@,
        "aarch64-linux-gnu"@,
        "arm-linux-gnueabihf"@,
        "riscv64-linux-gnu"@,
        "powerpc64le-linux-gnu"@,
        "s390x-linux-gnu"@,
        "loongarch64-linux-gnu"@,
    ]
}

/// The directories that are always searched: five that every system may have,
/// and then for each multiarch directory the one under `/lib` and the one under
/// `/usr/lib`.
pub proof fn the_usual_directories_are_searched(i: int)
    ensures
        resolve::fixed_places().len() == 21,
        resolve::fixed_places().take(5) == seq![
            "/lib"@,
            "/usr/lib"@,
            "/lib64"@,
            "/usr/lib64"@,
            "/usr/local/lib"@,
        ],
        0 <= i < 8 ==> resolve::fixed_places()[5 + 2 * i] == "/lib/"@ + triples()[i]
            && resolve::fixed_places()[6 + 2 * i] == "/usr/lib/"@ + triples()[i],
{
    assert(resolve::fixed_places().take(5) =~= seq![
        "/lib"@,
        "/usr/lib"@,
        "/lib64"@,
        "/usr/lib64"@,
        "/usr/local/lib"@,
    ]);
    reveal_strlit("/lib/");
    reveal_strlit("/usr/lib/");
    if i == 0 {
        reveal_strlit("x86_64-linux-gnu");
        reveal_strlit("/lib/x86_64-linux-gnu");
        reveal_strlit("/usr/lib/x86_64-linux-gnu");
        assert("/lib/"@ + "x86_64-linux-gnu"@ =~= "/lib/x86_64-linux-gnu"@);
        assert("/usr/lib/"@ + "x86_64-linux-gnu"@ =~= "/usr/lib/x86_64-linux-gnu"@);
    } else if i == 1 {
        reveal_strlit("i386-linux-gnu");
        reveal_strlit("/lib/i386-linux-gnu");
        reveal_strlit("/usr/lib/i386-linux-gnu");
        assert("/lib/"@ + "i386-linux-gnu"@ =~= "/lib/i386-linux-gnu"@);
        assert("/usr/lib/"@ + "i386-linux-gnu"@ =~= "/usr/lib/i386-linux-gnu"@);
    } else if i == 2 {
        reveal_strlit("aarch64-linux-gnu");
        reveal_strlit("/lib/aarch64-linux-gnu");
        reveal_strlit("/usr/lib/aarch64-linux-gnu");
        assert("/lib/"@ + "aarch64-linux-gnu"@ =~= "/lib/aarch64-linux-gnu"@);
        assert("/usr/lib/"@ + "aarch64-linux-gnu"@ =~= "/usr/lib/aarch64-linux-gnu"@);
    } else if i == 3 {
        reveal_strlit("arm-linux-gnueabihf");
        reveal_strlit("/lib/arm-linux-gnueabihf");
        reveal_strlit("/usr/lib/arm-linux-gnueabihf");
        assert("/lib/"@ + "arm-linux-gnueabihf"@ =~= "/lib/arm-linux-gnueabihf"@);
        assert("/usr/lib/"@ + "arm-linux-gnueabihf"@ =~= "/usr/lib/arm-linux-gnueabihf"@);
    } else if i == 4 {
        reveal_strlit("riscv64-linux-gnu");
        reveal_strlit("/lib/riscv64-linux-gnu");
        reveal_strlit("/usr/lib/riscv64-linux-gnu");
        assert("/lib/"@ + "riscv64-linux-gnu"@ =~= "/lib/riscv64-linux-gnu"@);
        assert("/usr/lib/"@ + "riscv64-linux-gnu"@ =~= "/usr/lib/riscv64-linux-gnu"@);
    } else if i == 5 {
        reveal_strlit("powerpc64le-linux-gnu");
        reveal_strlit("/lib/powerpc64le-linux-gnu");
        reveal_strlit("/usr/lib/powerpc64le-linux-gnu");
        assert("/lib/"@ + "powerpc64le-linux-gnu"@ =~= "/lib/powerpc64le-linux-gnu"@);
        assert("/usr/lib/"@ + "powerpc64le-linux-gnu"@ =~= "/usr/lib/powerpc64le-linux-gnu"@);
    } else if i == 6 {
        reveal_strlit("s390x-linux-gnu");
        reveal_strlit("/lib/s390x-linux-gnu");
        reveal_strlit("/usr/lib/s390x-linux-gnu");
        assert("/lib/"@ + "s390x-linux-gnu"@ =~= "/lib/s390x-linux-gnu"@);
        assert("/usr/lib/"@ + "s390x-linux-gnu"@ =~= "/usr/lib/s390x-linux-gnu"@);
    } else if i == 7 {
        reveal_strlit("loongarch64-linux-gnu");
        reveal_strlit("/lib/loongarch64-linux-gnu");
        reveal_strlit("/usr/lib/loongarch64-linux-gnu");
        assert("/lib/"@ + "loongarch64-linux-gnu"@ =~= "/lib/loongarch64-linux-gnu"@);
        assert("/usr/lib/"@ + "loongarch64-linux-gnu"@ =~= "/usr/lib/loongarch64-linux-gnu"@);
    }
}

/// Directories that are different paths are kept, all of them and in their
/// order.
pub proof fn different_directories_are_kept(dirs: Seq<Seq<char>>)
    requires
        path::once_each(dirs),
    ensures
        resolve::without_repeats(dirs) == dirs,
    decreases dirs.len(),
{
    if dirs.len() > 0 {
        let front = dirs.drop_last();
        assert forall|i: int, j: int| 0 <= i < j < front.len() implies !path::same_path(
            #[trigger] front[i],
            #[trigger] front[j],
        ) by {
            assert(front[i] == dirs[i] && front[j] == dirs[j]);
        }
        different_directories_are_kept(front);
        assert(!path::listed(front, dirs.last())) by {
            if path::listed(front, dirs.last()) {
                let i = choose|i: int|
                    0 <= i < front.len() && path::same_path(#[trigger] front[i], dirs.last());
                assert(dirs[i] == front[i] && dirs[dirs.len() - 1] == dirs.last());
            }
        }
        assert(front.push(dirs.last()) =~= dirs);
    }
}

/// A directory that was listed before adds nothing, one that was not comes
/// last.
pub proof fn a_directory_more(dirs: Seq<Seq<char>>, dir: Seq<char>)
    ensures
        (exists|i: int| 0 <= i < dirs.len() && path::same_path(#[trigger] dirs[i], dir))
            ==> resolve::without_repeats(dirs.push(dir)) == resolve::without_repeats(dirs),
        !(exists|i: int| 0 <= i < dirs.len() && path::same_path(#[trigger] dirs[i], dir))
            ==> resolve::without_repeats(dirs.push(dir)) == resolve::without_repeats(dirs).push(dir),
{
    assert(dirs.push(dir).drop_last() =~= dirs);
    lemma_listed(dirs, dir);
}

proof fn lemma_listed(dirs: Seq<Seq<char>>, dir: Seq<char>)
    ensures
        path::listed(resolve::without_repeats(dirs), dir) <==> exists|i: int|
            0 <= i < dirs.len() && path::same_path(#[trigger] dirs[i], dir),
    decreases dirs.len(),
{
    if dirs.len() > 0 {
        let front = dirs.drop_last();
        let rest = resolve::without_repeats(front);
        let all = resolve::without_repeats(dirs);
        let last = dirs.last();
        lemma_listed(front, dir);
        lemma_listed(front, last);
        if path::listed(all, dir) {
            let i = choose|i: int| 0 <= i < all.len() && path::same_path(#[trigger] all[i], dir);
            if i < rest.len() {
                assert(rest[i] == all[i]);
                assert(path::listed(rest, dir));
                let k = choose|k: int|
                    0 <= k < front.len() && path::same_path(#[trigger] front[k], dir);
                assert(dirs[k] == front[k]);
            } else {
                assert(dirs[dirs.len() - 1] == last);
            }
        }
        if exists|i: int| 0 <= i < dirs.len() && path::same_path(#[trigger] dirs[i], dir) {
            let i = choose|i: int| 0 <= i < dirs.len() && path::same_path(#[trigger] dirs[i], dir);
            if i < front.len() {
                assert(front[i] == dirs[i]);
                let k = choose|k: int|
                    0 <= k < rest.len() && path::same_path(#[trigger] rest[k], dir);
                assert(all[k] == rest[k]);
            } else if path::listed(rest, last) {
                let k = choose|k: int|
                    0 <= k < rest.len() && path::same_path(#[trigger] rest[k], last);
                assert(all[k] == rest[k]);
                assert(path::same_path(all[k], dir));
            } else {
                assert(all[rest.len() as int] == last);
            }
        }
    }
}

/// The default directories are the usual ones and then those that are
/// configured.
pub proof fn configured_directories_come_last(conf_dirs: Seq<Seq<char>>)
    ensures
        resolve::default_places(conf_dirs) == resolve::without_repeats(
            resolve::fixed_places() + conf_dirs,
        ),
{
}

// ---------------------------------------------------------------------------
// The cache
// ---------------------------------------------------------------------------

/// A text neither begins nor ends with white space.
pub open spec fn is_trim(s: Seq<char>) -> bool {
    s.len() > 0 && !text::is_white(s[0]) && !text::is_white(s.last())
}

proof fn lemma_trim(a: Seq<char>, s: Seq<char>, b: Seq<char>)
    requires
        words::all_white(a),
        words::all_white(b),
        is_trim(s),
    ensures
        text::trimmed(a + s + b) == s,
    decreases a.len() + b.len(),
{
    let t = a + s + b;
    if a.len() > 0 {
        assert(t[0] == a[0]);
        assert(t.drop_first() =~= a.drop_first() + s + b);
        assert forall|i: int| 0 <= i < a.drop_first().len() implies text::is_white(
            #[trigger] a.drop_first()[i],
        ) by {
            assert(a[i + 1] == a.drop_first()[i]);
        }
        lemma_trim(a.drop_first(), s, b);
    } else {
        assert(t[0] == s[0]);
        lemma_trim_tail(s, b);
        assert(t =~= s + b);
    }
}

proof fn lemma_trim_tail(s: Seq<char>, b: Seq<char>)
    requires
        words::all_white(b),
        is_trim(s),
    ensures
        text::trim_end(s + b) == s,
    decreases b.len(),
{
    let t = s + b;
    if b.len() > 0 {
        assert(t.last() == b[b.len() - 1]);
        assert(t.drop_last() =~= s + b.drop_last());
        assert forall|i: int| 0 <= i < b.drop_last().len() implies text::is_white(
            #[trigger] b.drop_last()[i],
        ) by {
            assert(b[i] == b.drop_last()[i]);
        }
        lemma_trim_tail(s, b.drop_last());
    } else {
        assert(t =~= s);
    }
}

proof fn lemma_part(a: Seq<char>, p: Seq<char>, b: Seq<char>)
    requires
        forall|j: int| 0 <= j < a.len() ==> !#[trigger] text::occurs_at(a + p + b, p, j),
    ensures
        text::split_once(a + p + b, p) == Some((a, b)),
{
    let s = a + p + b;
    text::lemma_first_at(s, p);
    assert(s.subrange(a.len() as int, (a.len() + p.len()) as int) =~= p);
    assert(text::occurs_at(s, p, a.len() as int));
    let k = text::first_at(s, p)->0;
    assert(k == a.len());
    assert(s.take(k) =~= a);
    assert(s.skip(k + p.len()) =~= b);
}

/// A line `name (arch) => path` of the cache listing, with any white space
/// around it, gives an entry with the name, what stands in the brackets, and
/// the path.
pub proof fn cache_lines_are_read(
    before: Seq<char>,
    name: Seq<char>,
    arch: Seq<char>,
    place: Seq<char>,
    after: Seq<char>,
)
    requires
        words::all_white(before),
        words::all_white(after),
        is_trim(name),
        is_trim(arch),
        is_trim(place),
        !name.contains('('),
        !arch.contains(')'),
    ensures
        resolve::cache_line(before + (name + " ("@ + arch + ") => "@ + place) + after) == Some(
            CacheEntryView { name, arch, path: place },
        ),
{
    let line = name + " ("@ + arch + ") => "@ + place;
    let rest = arch + ") => "@ + place;
    reveal_strlit(" (");
    reveal_strlit(") => ");
    assert(line[0] == name[0]);
    assert(line.last() == place.last());
    lemma_trim(before, line, after);
    assert(line =~= name + " ("@ + rest);
    assert forall|j: int| 0 <= j < name.len() implies !#[trigger] text::occurs_at(
        name + " ("@ + rest,
        " ("@,
        j,
    ) by {
        let s = name + " ("@ + rest;
        if text::occurs_at(s, " ("@, j) {
            assert(s.subrange(j, j + 2)[1] == '(');
            assert(s[j + 1] == '(');
            if j + 1 < name.len() {
                assert(name.contains(name[j + 1]));
            }
        }
    }
    lemma_part(name, " ("@, rest);
    assert forall|j: int| 0 <= j < arch.len() implies !#[trigger] text::occurs_at(
        arch + ") => "@ + place,
        ") => "@,
        j,
    ) by {
        let s = arch + ") => "@ + place;
        if text::occurs_at(s, ") => "@, j) {
            assert(s.subrange(j, j + 5)[0] == ')');
            assert(arch.contains(arch[j]));
        }
    }
    lemma_part(arch, ") => "@, place);
    let none = Seq::<char>::empty();
    assert(words::all_white(none));
    lemma_trim(none, name, none);
    lemma_trim(none, arch, none);
    lemma_trim(none, place, none);
    assert(none + name + none =~= name);
    assert(none + arch + none =~= arch);
    assert(none + place + none =~= place);
}

/// A line without brackets or without an arrow gives nothing.
pub proof fn other_lines_give_no_entry(line: Seq<char>)
    requires
        !line.contains('(') || !line.contains('='),
    ensures
        resolve::cache_line(line) is None,
{
    let t = text::trimmed(line);
    reveal_strlit(" (");
    reveal_strlit(") => ");
    words::trimming_takes_white_space_only(line);
    let (a, b) = choose|a: Seq<char>, b: Seq<char>|
        #![trigger words::all_white(a), words::all_white(b)]
        words::all_white(a) && words::all_white(b) && line == a + t + b;
    words::parting_is_at_the_first_place(t, " ("@);
    if text::split_once(t, " ("@) is Some {
        let (name, rest) = text::split_once(t, " ("@)->0;
        let na = name.len() as int;
        let before = a.len() as int;
        assert(t[na + 1] == '(');
        assert(line[before + na + 1] == '(');
        assert(line.contains('('));
        words::parting_is_at_the_first_place(rest, ") => "@);
        if text::split_once(rest, ") => "@) is Some {
            let (arch, place) = text::split_once(rest, ") => "@)->0;
            let nb = arch.len() as int;
            assert(rest[nb + 2] == '=');
            assert(t[na + 2 + nb + 2] == rest[nb + 2]);
            assert(line[before + na + 2 + nb + 2] == '=');
            assert(line.contains('='));
        }
    }
}

/// The entry of a line, if it gives one.
pub open spec fn entry_of() -> spec_fn(Seq<char>) -> Option<CacheEntryView> {
    |line: Seq<char>| resolve::cache_line(line)
}

proof fn lemma_cache_lines(lines: Seq<Seq<char>>)
    ensures
        resolve::cache_lines(lines) == lines.filter_map(entry_of()),
    decreases lines.len(),
{
    if lines.len() > 0 {
        lemma_cache_lines(lines.drop_last());
        let rest = resolve::cache_lines(lines.drop_last());
        match resolve::cache_line(lines.last()) {
            Some(entry) => {
                assert(rest.push(entry) =~= rest + seq![entry]);
            },
            None => {},
        }
    }
}

/// A listing gives the entries of all of its lines, in their order.
pub proof fn every_line_of_a_listing_is_read(lines: Seq<Seq<char>>)
    requires
        lines.len() > 0,
        forall|i: int| 0 <= i < lines.len() ==> !(#[trigger] lines[i]).contains('\n'),
    ensures
        resolve::listed_cache(words::joined_by(lines, '\n')) == lines.filter_map(entry_of()),
{
    words::pieces_come_out_again(lines, '\n');
    lemma_cache_lines(lines);
}

/// The first listing that gives any entry counts, and no other.
pub proof fn the_first_listing_that_says_anything_counts(listings: Seq<Seq<char>>, i: int)
    requires
        0 <= i < listings.len(),
        resolve::listed_cache(listings[i]).len() > 0,
        forall|k: int| 0 <= k < i ==> (#[trigger] resolve::listed_cache(listings[k])).len() == 0,
    ensures
        resolve::first_cache(listings) == resolve::listed_cache(listings[i]),
    decreases listings.len(),
{
    if i > 0 {
        let rest = listings.drop_first();
        assert(resolve::listed_cache(listings[0]).len() == 0);
        assert forall|k: int| 0 <= k < i - 1 implies (#[trigger] resolve::listed_cache(
            rest[k],
        )).len() == 0 by {
            assert(rest[k] == listings[k + 1]);
            assert(resolve::listed_cache(listings[k + 1]).len() == 0);
        }
        assert(rest[i - 1] == listings[i]);
        the_first_listing_that_says_anything_counts(rest, i - 1);
    }
}

// ---------------------------------------------------------------------------
// Variables in directories
// ---------------------------------------------------------------------------

/// A variable of a directory list, in one of its two spellings.
pub open spec fn spells(variable: Seq<char>, name: Seq<char>) -> bool {
    variable == seq!['$'] + name || variable == seq!['$', '{'] + name + seq!['}']
}

proof fn lemma_no_dollar(s: Seq<char>, p: Seq<char>)
    requires
        !s.contains('$'),
        p.len() > 0,
        p[0] == '$',
    ensures
        !text::contains_text(s, p),
{
    if text::contains_text(s, p) {
        let i = choose|i: int| text::occurs_at(s, p, i);
        assert(s.subrange(i, i + p.len())[0] == '$');
        assert(s[i] == '$');
    }
}

proof fn lemma_stays(s: Seq<char>, p: Seq<char>, by: Seq<char>)
    requires
        !s.contains('$'),
        p.len() > 0,
        p[0] == '$',
    ensures
        text::replaced(s, p, by) == s,
{
    lemma_no_dollar(s, p);
    words::nothing_is_replaced_without_it(s, p, by);
}

proof fn lemma_gives_way(a: Seq<char>, p: Seq<char>, b: Seq<char>, by: Seq<char>)
    requires
        !a.contains('$'),
        !b.contains('$'),
        p.len() > 0,
        p[0] == '$',
    ensures
        text::replaced(a + p + b, p, by) == a + by + b,
{
    let s = a + p + b;
    assert forall|j: int| 0 <= j < a.len() implies !#[trigger] text::occurs_at(s, p, j) by {
        if text::occurs_at(s, p, j) {
            assert(s.subrange(j, j + p.len())[0] == '$');
            assert(a[j] == '$');
            assert(a.contains(a[j]));
        }
    }
    words::the_first_gives_way(a, p, b, by);
    lemma_stays(b, p, by);
}

/// A text that begins with a dollar sign, and holds no other, does not hold
/// one that it is not the beginning of.
proof fn lemma_other_variable(a: Seq<char>, q: Seq<char>, b: Seq<char>, p: Seq<char>, k: int, by: Seq<char>)
    requires
        !a.contains('$'),
        !b.contains('$'),
        q.len() > 0,
        !q.drop_first().contains('$'),
        p[0] == '$',
        0 <= k < p.len(),
        k < q.len(),
        p[k] != q[k],
    ensures
        text::replaced(a + q + b, p, by) == a + q + b,
{
    let s = a + q + b;
    let n = a.len() as int;
    if text::contains_text(s, p) {
        let i = choose|i: int| text::occurs_at(s, p, i);
        let part = s.subrange(i, i + p.len());
        assert(part[0] == '$' && part[0] == s[i]);
        if i < n {
            assert(a.contains(a[i]));
        } else if i > n && i < n + q.len() {
            assert(s[i] == q.drop_first()[i - n - 1]);
            assert(q.drop_first().contains(q.drop_first()[i - n - 1]));
        } else if i >= n + q.len() {
            assert(s[i] == b[i - n - q.len()]);
            assert(b.contains(b[i - n - q.len()]));
        } else {
            assert(part[k] == p[k] && part[k] == s[n + k]);
        }
    }
    words::nothing_is_replaced_without_it(s, p, by);
}

/// `$ORIGIN` and `${ORIGIN}` in an entry give way to the directory of the
/// object, `$LIB` and `${LIB}` to the name of the library directory, and
/// `$PLATFORM` and `${PLATFORM}` to that of the platform.
pub proof fn variables_give_way(
    a: Seq<char>,
    variable: Seq<char>,
    b: Seq<char>,
    origin: Seq<char>,
    lib: Seq<char>,
    platform: Seq<char>,
)
    requires
        !a.contains('$'),
        !b.contains('$'),
        !origin.contains('$'),
        !lib.contains('$'),
        !platform.contains('$'),
    ensures
        spells(variable, "ORIGIN"@) ==> resolve::expanded(a + variable + b, origin, lib, platform)
            == a + origin + b,
        spells(variable, "LIB"@) ==> resolve::expanded(a + variable + b, origin, lib, platform) == a
            + lib + b,
        spells(variable, "PLATFORM"@) ==> resolve::expanded(
            a + variable + b,
            origin,
            lib,
            platform,
        ) == a + platform + b,
{
    lemma_variables();
    let s = a + variable + b;
    let p1 = "${ORIGIN}"@;
    let p2 = "$ORIGIN"@;
    let p3 = "${LIB}"@;
    let p4 = "$LIB"@;
    let p5 = "${PLATFORM}"@;
    let p6 = "$PLATFORM"@;
    lemma_sum_is_free(a, origin, b);
    lemma_sum_is_free(a, lib, b);
    lemma_sum_is_free(a, platform, b);
    if spells(variable, "ORIGIN"@) {
        let r = a + origin + b;
        if variable == p1 {
            lemma_gives_way(a, p1, b, origin);
            lemma_stays(r, p2, origin);
        } else {
            lemma_other_variable(a, p2, b, p1, 1, origin);
            lemma_gives_way(a, p2, b, origin);
        }
        lemma_stays(r, p3, lib);
        lemma_stays(r, p4, lib);
        lemma_stays(r, p5, platform);
        lemma_stays(r, p6, platform);
    }
    if spells(variable, "LIB"@) {
        let r = a + lib + b;
        if variable == p3 {
            lemma_other_variable(a, p3, b, p1, 2, origin);
            lemma_other_variable(a, p3, b, p2, 1, origin);
            lemma_gives_way(a, p3, b, lib);
            lemma_stays(r, p4, lib);
        } else {
            lemma_other_variable(a, p4, b, p1, 1, origin);
            lemma_other_variable(a, p4, b, p2, 1, origin);
            lemma_other_variable(a, p4, b, p3, 1, lib);
            lemma_gives_way(a, p4, b, lib);
        }
        lemma_stays(r, p5, platform);
        lemma_stays(r, p6, platform);
    }
    if spells(variable, "PLATFORM"@) {
        let r = a + platform + b;
        if variable == p5 {
            lemma_other_variable(a, p5, b, p1, 2, origin);
            lemma_other_variable(a, p5, b, p2, 1, origin);
            lemma_other_variable(a, p5, b, p3, 2, lib);
            lemma_other_variable(a, p5, b, p4, 1, lib);
            lemma_gives_way(a, p5, b, platform);
            lemma_stays(r, p6, platform);
        } else {
            lemma_other_variable(a, p6, b, p1, 1, origin);
            lemma_other_variable(a, p6, b, p2, 1, origin);
            lemma_other_variable(a, p6, b, p3, 1, lib);
            lemma_other_variable(a, p6, b, p4, 1, lib);
            lemma_other_variable(a, p6, b, p5, 1, platform);
            lemma_gives_way(a, p6, b, platform);
        }
    }
}

proof fn lemma_sum_is_free(a: Seq<char>, m: Seq<char>, b: Seq<char>)
    requires
        !a.contains('$'),
        !m.contains('$'),
        !b.contains('$'),
    ensures
        !(a + m + b).contains('$'),
{
    let s = a + m + b;
    if s.contains('$') {
        let i = choose|i: int| 0 <= i < s.len() && s[i] == '$';
        if i < a.len() {
            assert(a.contains(a[i]));
        } else if i < a.len() + m.len() {
            assert(m.contains(m[i - a.len()]));
        } else {
            assert(b.contains(b[i - a.len() - m.len()]));
        }
    }
}

proof fn lemma_variables()
    ensures
        "$ORIGIN"@ == seq!['$'] + "ORIGIN"@,
        "${ORIGIN}"@ == seq!['$', '{'] + "ORIGIN"@ + seq!['}'],
        "$LIB"@ == seq!['$'] + "LIB"@,
        "${LIB}"@ == seq!['$', '{'] + "LIB"@ + seq!['}'],
        "$PLATFORM"@ == seq!['$'] + "PLATFORM"@,
        "${PLATFORM}"@ == seq!['$', '{'] + "PLATFORM"@ + seq!['}'],
        "$ORIGIN"@[0] == '$' && "$ORIGIN"@[1] == 'O' && "$ORIGIN"@.len() == 7,
        "${ORIGIN}"@[0] == '$' && "${ORIGIN}"@[1] == '{' && "${ORIGIN}"@[2] == 'O'
            && "${ORIGIN}"@.len() == 9,
        "$LIB"@[0] == '$' && "$LIB"@[1] == 'L' && "$LIB"@.len() == 4,
        "${LIB}"@[0] == '$' && "${LIB}"@[1] == '{' && "${LIB}"@[2] == 'L' && "${LIB}"@.len() == 6,
        "$PLATFORM"@[0] == '$' && "$PLATFORM"@[1] == 'P' && "$PLATFORM"@.len() == 9,
        "${PLATFORM}"@[0] == '$' && "${PLATFORM}"@[1] == '{' && "${PLATFORM}"@[2] == 'P'
            && "${PLATFORM}"@.len() == 11,
        !"$ORIGIN"@.drop_first().contains('$'),
        !"${ORIGIN}"@.drop_first().contains('$'),
        !"$LIB"@.drop_first().contains('$'),
        !"${LIB}"@.drop_first().contains('$'),
        !"$PLATFORM"@.drop_first().contains('$'),
        !"${PLATFORM}"@.drop_first().contains('$'),
{
    reveal_strlit("ORIGIN");
    reveal_strlit("LIB");
    reveal_strlit("PLATFORM");
    reveal_strlit("$ORIGIN");
    reveal_strlit("${ORIGIN}");
    reveal_strlit("$LIB");
    reveal_strlit("${LIB}");
    reveal_strlit("$PLATFORM");
    reveal_strlit("${PLATFORM}");
    assert("$ORIGIN"@ =~= seq!['$'] + "ORIGIN"@);
    assert("${ORIGIN}"@ =~= seq!['$', '{'] + "ORIGIN"@ + seq!['}']);
    assert("$LIB"@ =~= seq!['$'] + "LIB"@);
    assert("${LIB}"@ =~= seq!['$', '{'] + "LIB"@ + seq!['}']);
    assert("$PLATFORM"@ =~= seq!['$'] + "PLATFORM"@);
    assert("${PLATFORM}"@ =~= seq!['$', '{'] + "PLATFORM"@ + seq!['}']);
}

/// Every entry of a list is expanded by itself, with the directory that the
/// object stands in, with `lib64` for a 64-bit object on an x86-64 host and
/// `lib` for every other, and with the name of the host.
pub proof fn entries_are_expanded_for_their_object(
    elf: ElfView,
    raw: Seq<Seq<char>>,
    arch: Seq<char>,
    i: int,
)
    requires
        0 <= i < raw.len(),
    ensures
        resolve::expanded_dirs(elf, raw, arch).len() == raw.len(),
        resolve::expanded_dirs(elf, raw, arch)[i] == resolve::expanded(
            raw[i],
            match path::parent(elf.path) {
                Some(dir) => dir,
                None => "."@,
            },
            if elf.class is Elf64 && arch == "x86_64"@ {
                "lib64"@
            } else {
                "lib"@
            },
            elf::host_text(arch),
        ),
{
}

/// `$ORIGIN` in an entry of an object that stands in a directory is that
/// directory.
pub proof fn the_origin_is_the_directory_of_the_object(
    elf: ElfView,
    dir: Seq<char>,
    name: Seq<char>,
    rest: Seq<char>,
    arch: Seq<char>,
)
    requires
        elf.path == dir + seq!['/'] + name,
        words::is_name(name),
        dir.len() > 0,
        dir.last() != '/',
        dir.last() != '.',
        !dir.contains('$'),
        !rest.contains('$'),
    ensures
        resolve::expanded_dirs(elf, seq!["$ORIGIN"@ + rest], arch) == seq![dir + rest],
        resolve::expanded_dirs(elf, seq!["${ORIGIN}"@ + rest], arch) == seq![dir + rest],
{
    words::a_path_is_taken_apart(dir, name);
    lemma_variables();
    lemma_names_are_free(arch);
    let none = Seq::<char>::empty();
    let lib = resolve::lib_of(elf.class, arch);
    let platform = elf::host_text(arch);
    reveal_strlit("lib64");
    reveal_strlit("lib");
    assert(!"lib64"@.contains('$'));
    assert(!"lib"@.contains('$'));
    variables_give_way(none, "$ORIGIN"@, rest, dir, lib, platform);
    variables_give_way(none, "${ORIGIN}"@, rest, dir, lib, platform);
    assert(none + "$ORIGIN"@ + rest =~= "$ORIGIN"@ + rest);
    assert(none + "${ORIGIN}"@ + rest =~= "${ORIGIN}"@ + rest);
    assert(none + dir + rest =~= dir + rest);
    assert(resolve::expanded_dirs(elf, seq!["$ORIGIN"@ + rest], arch) =~= seq![dir + rest]);
    assert(resolve::expanded_dirs(elf, seq!["${ORIGIN}"@ + rest], arch) =~= seq![dir + rest]);
}

proof fn lemma_names_are_free(arch: Seq<char>)
    ensures
        !elf::host_text(arch).contains('$'),
{
    reveal_strlit("i386");
    reveal_strlit("MIPS");
    reveal_strlit("PowerPC");
    reveal_strlit("PowerPC64");
    reveal_strlit("s390");
    reveal_strlit("ARM");
    reveal_strlit("SuperH");
    reveal_strlit("IA-64");
    reveal_strlit("x86-64");
    reveal_strlit("AArch64");
    reveal_strlit("RISC-V");
    reveal_strlit("LoongArch");
    reveal_strlit("unknown architecture");
    reveal_strlit("this machine");
}

} // verus!
