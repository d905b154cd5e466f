//! Dynamic-loader library search semantics.
//!
//! glibc looks for a `DT_NEEDED` object in this order:
//!
//! 1. `DT_RPATH` of the loading object (ignored when it has `DT_RUNPATH`)
//! 2. `LD_LIBRARY_PATH`
//! 3. `DT_RUNPATH` of the loading object
//! 4. the `ld.so` cache
//! 5. the default directories
//!
//! Reproducing that order is what lets `why` report the file the loader would
//! actually pick, and conclude confidently that a library is missing rather
//! than merely not being where the tool happened to look.
//!
//! The file system is seen through [`Probe`]s: what stands at each place that
//! [`Resolver::candidates`] names.

use vstd::prelude::*;
use crate::elf;
use crate::elf::reader::Endian;
use crate::elf::{Class, ElfFile, ElfView};
use crate::path;
use crate::text;

verus! {

/// One entry of the `ld.so` cache, as printed by `ldconfig -p`.
#[derive(Debug, Clone)]
pub struct CacheEntry {
    pub name: String,
    pub arch: String,
    pub path: String,
}

/// What a [`CacheEntry`] holds.
pub struct CacheEntryView {
    pub name: Seq<char>,
    pub arch: Seq<char>,
    pub path: Seq<char>,
}

impl DeepView for CacheEntry {
    type V = CacheEntryView;

    open spec fn deep_view(&self) -> CacheEntryView {
        CacheEntryView { name: self.name@, arch: self.arch@, path: self.path@ }
    }
}

/// The ELF class and machine a candidate library must have.
///
/// The dynamic loader refuses an object built for a different word size or
/// machine, so `why` has to as well: on a multilib system `/usr/lib` and
/// `/usr/lib32` can both contain `libc.so.6`, and choosing the wrong one
/// corrupts every symbol and version result downstream.
#[derive(Debug, Clone, Copy, PartialEq, Eq, Structural)]
pub struct ElfIdentity {
    pub class: Class,
    pub machine: u16,
}

/// The identity that the objects needed by `elf` must have.
pub open spec fn identity_of(elf: ElfView) -> ElfIdentity {
    ElfIdentity { class: elf.class, machine: elf.machine }
}

impl ElfIdentity {
    /// The identity a `DT_NEEDED` entry must match.
    pub fn of(elf: &ElfFile) -> (r: Self)
        ensures
            r == identity_of(elf.deep_view()),
    {
        ElfIdentity { class: elf.class, machine: elf.machine }
    }

    pub fn matches(self, other: Self) -> (r: bool)
        ensures
            r == (self == other),
    {
        self.class == other.class && self.machine == other.machine
    }
}

/// The outcome of looking for one `DT_NEEDED` name.
#[derive(Debug, Clone, PartialEq, Eq)]
pub enum SearchOutcome {
    /// A usable object was found.
    Found(String),
    /// A file with the right name exists, but it is built for another
    /// architecture, so the loader cannot use it.
    WrongArchitecture(String, ElfIdentity),
    /// A file with the right name exists, but it is not a loadable ELF object
    /// (not ELF at all, or unreadable).
    Unusable(String, &'static str),
    /// Nothing with that name exists anywhere in the search path.
    Missing,
}

/// What a [`SearchOutcome`] says.
pub enum OutcomeView {
    Found(Seq<char>),
    WrongArchitecture(Seq<char>, ElfIdentity),
    Unusable(Seq<char>, Seq<char>),
    Missing,
}

impl DeepView for SearchOutcome {
    type V = OutcomeView;

    open spec fn deep_view(&self) -> OutcomeView {
        match self {
            SearchOutcome::Found(p) => OutcomeView::Found(p@),
            SearchOutcome::WrongArchitecture(p, found) => OutcomeView::WrongArchitecture(
                p@,
                *found,
            ),
            SearchOutcome::Unusable(p, reason) => OutcomeView::Unusable(p@, reason@),
            SearchOutcome::Missing => OutcomeView::Missing,
        }
    }
}

/// Why a candidate could not be identified as an ELF object.
#[derive(Debug, Clone, Copy, PartialEq, Eq, Structural)]
pub enum IdentifyError {
    /// The file could not be opened or read.
    Unreadable,
    /// The file does not begin with an ELF header.
    NotElf,
}

impl IdentifyError {
    /// The phrase for the report.
    pub open spec fn text(self) -> Seq<char> {
        match self {
            IdentifyError::Unreadable => "unreadable"@,
            IdentifyError::NotElf => "not an ELF object"@,
        }
    }

    /// A short phrase for the report.
    pub fn message(self) -> (r: &'static str)
        ensures
            r@ == self.text(),
    {
        match self {
            IdentifyError::Unreadable => "unreadable",
            IdentifyError::NotElf => "not an ELF object",
        }
    }
}

// ---------------------------------------------------------------------------
// The identity of a file
// ---------------------------------------------------------------------------

/// How many bytes at the start of a file tell its identity.
pub const IDENTITY_SIZE: usize = 20;

/// The identity that the first bytes of a file tell.
pub open spec fn identified(head: Seq<u8>) -> Result<ElfIdentity, IdentifyError> {
    if head.len() < IDENTITY_SIZE {
        Err(IdentifyError::Unreadable)
    } else if head.take(4) != elf::magic() {
        Err(IdentifyError::NotElf)
    } else {
        match (elf::class_of(head[4]), elf::endian_of(head[5])) {
            (Some(class), Some(endian)) => Ok(
                ElfIdentity {
                    class,
                    machine: elf::reader::value_of(endian, head.subrange(18, 20)) as u16,
                },
            ),
            _ => Err(IdentifyError::NotElf),
        }
    }
}

/// Reads just the ELF identity (class and machine) of a file.
///
/// Only the first 20 bytes are read, so this is cheap even for a huge library.
/// A file that is not an ELF object is an error, not "unknown": the loader
/// cannot use it, and reporting it as found would hide a broken library. What
/// could not be read, or ends before the identity does, is unreadable.
pub fn identify(head: &[u8]) -> (r: Result<ElfIdentity, IdentifyError>)
    ensures
        r == identified(head@),
{
    if head.len() < IDENTITY_SIZE {
        return Err(IdentifyError::Unreadable);
    }
    if !elf::has_magic(head) {
        return Err(IdentifyError::NotElf);
    }
    let class: Class = match head[4] {
        1 => Class::Elf32,
        2 => Class::Elf64,
        _ => {
            return Err(IdentifyError::NotElf);
        },
    };
    let endian: Endian = match head[5] {
        1 => Endian::Little,
        2 => Endian::Big,
        _ => {
            return Err(IdentifyError::NotElf);
        },
    };
    let bytes: elf::reader::Bytes = elf::reader::Bytes::new(head, endian);
    match bytes.u16(18) {
        Ok(machine) => Ok(ElfIdentity { class, machine }),
        Err(_) => Err(IdentifyError::Unreadable),
    }
}

// ---------------------------------------------------------------------------
// Looking through candidates
// ---------------------------------------------------------------------------

/// What stands at one place of the file system.
#[derive(Debug, Clone)]
pub enum Probe {
    /// No regular file.
    Absent,
    /// A regular file: its first bytes (none where it cannot be read), and the
    /// canonical path that tells whether two paths lead to one file.
    File { head: Vec<u8>, key: String },
}

/// What a [`Probe`] holds.
pub enum ProbeView {
    Absent,
    File { head: Seq<u8>, key: Seq<char> },
}

impl DeepView for Probe {
    type V = ProbeView;

    open spec fn deep_view(&self) -> ProbeView {
        match self {
            Probe::Absent => ProbeView::Absent,
            Probe::File { head, key } => ProbeView::File { head: head@, key: key@ },
        }
    }
}

/// What a candidate is good for.
pub enum Verdict {
    Nothing,
    Usable,
    Mismatched(ElfIdentity),
    Broken(IdentifyError),
}

/// What a candidate is good for, judged by what stands in its place.
pub open spec fn verdict(probe: ProbeView, wanted: Option<ElfIdentity>) -> Verdict {
    match probe {
        ProbeView::Absent => Verdict::Nothing,
        ProbeView::File { head, key } => match wanted {
            None => Verdict::Usable,
            Some(want) => match identified(head) {
                Ok(found) => if found == want {
                    Verdict::Usable
                } else {
                    Verdict::Mismatched(found)
                },
                Err(reason) => Verdict::Broken(reason),
            },
        },
    }
}

/// What is known of the candidate at an index; nothing stands where no probe
/// was made.
pub open spec fn verdict_at(probes: Seq<ProbeView>, wanted: Option<ElfIdentity>, i: int) -> Verdict {
    if 0 <= i < probes.len() {
        verdict(probes[i], wanted)
    } else {
        Verdict::Nothing
    }
}

/// The candidates that the loader would take.
pub open spec fn usable(probes: Seq<ProbeView>, wanted: Option<ElfIdentity>) -> spec_fn(int) -> bool {
    |i: int| verdict_at(probes, wanted, i) is Usable
}

/// The candidates of another architecture.
pub open spec fn mismatched(
    probes: Seq<ProbeView>,
    wanted: Option<ElfIdentity>,
) -> spec_fn(int) -> bool {
    |i: int| verdict_at(probes, wanted, i) is Mismatched
}

/// The candidates that are no ELF objects.
pub open spec fn broken(probes: Seq<ProbeView>, wanted: Option<ElfIdentity>) -> spec_fn(int) -> bool {
    |i: int| verdict_at(probes, wanted, i) is Broken
}

/// The least number below `n` of which `p` holds.
pub open spec fn first_below(n: int, p: spec_fn(int) -> bool) -> Option<int>
    decreases n,
{
    if n <= 0 {
        None
    } else {
        match first_below(n - 1, p) {
            Some(i) => Some(i),
            None => if p(n - 1) {
                Some(n - 1)
            } else {
                None
            },
        }
    }
}

/// `first_below` gives the least number, and gives one where there is one.
pub proof fn lemma_first_below(n: int, p: spec_fn(int) -> bool)
    ensures
        first_below(n, p) matches Some(i) ==> 0 <= i < n && p(i) && forall|k: int|
            0 <= k < i ==> !(#[trigger] p(k)),
        first_below(n, p) is None ==> forall|k: int| 0 <= k < n ==> !(#[trigger] p(k)),
    decreases n,
{
    if n > 0 {
        lemma_first_below(n - 1, p);
    }
}

/// A first number found early stays the first.
pub proof fn lemma_first_stays(m: int, n: int, p: spec_fn(int) -> bool)
    requires
        m <= n,
        first_below(m, p) is Some,
    ensures
        first_below(n, p) == first_below(m, p),
    decreases n - m,
{
    if m < n {
        lemma_first_stays(m, n - 1, p);
        lemma_first_below(m, p);
    }
}

/// The index of the candidate that the loader takes.
pub open spec fn taken(
    n: nat,
    probes: Seq<ProbeView>,
    wanted: Option<ElfIdentity>,
) -> Option<int> {
    first_below(n as int, usable(probes, wanted))
}

/// The outcome of looking through candidates: the first usable one, else the
/// first of another architecture, else the first that is no ELF object.
pub open spec fn searched(
    candidates: Seq<Seq<char>>,
    probes: Seq<ProbeView>,
    wanted: Option<ElfIdentity>,
) -> OutcomeView {
    let n = candidates.len() as int;
    match taken(candidates.len(), probes, wanted) {
        Some(i) => OutcomeView::Found(candidates[i]),
        None => match first_below(n, mismatched(probes, wanted)) {
            Some(i) => OutcomeView::WrongArchitecture(
                candidates[i],
                verdict_at(probes, wanted, i)->Mismatched_0,
            ),
            None => match first_below(n, broken(probes, wanted)) {
                Some(i) => OutcomeView::Unusable(
                    candidates[i],
                    verdict_at(probes, wanted, i)->Broken_0.text(),
                ),
                None => OutcomeView::Missing,
            },
        },
    }
}

/// The canonical path of the candidate that the loader takes; empty where it
/// takes none.
pub open spec fn taken_key(
    n: nat,
    probes: Seq<ProbeView>,
    wanted: Option<ElfIdentity>,
) -> Seq<char> {
    match taken(n, probes, wanted) {
        Some(i) => probes[i]->key,
        None => Seq::empty(),
    }
}

/// Whether the loader would take what stands at a place. Where it would, the
/// places behind need not be probed.
pub fn is_usable(probe: &Probe, wanted: Option<ElfIdentity>) -> (r: bool)
    ensures
        r == (verdict(probe.deep_view(), wanted) is Usable),
{
    match probe {
        Probe::Absent => false,
        Probe::File { head, .. } => match wanted {
            None => true,
            Some(want) => match identify(head.as_slice()) {
                Ok(found) => found.matches(want),
                Err(_) => false,
            },
        },
    }
}

/// What a search gives: the outcome, and the canonical path of the object
/// found.
pub struct Located {
    pub outcome: SearchOutcome,
    pub key: String,
}

/// Looks through candidates.
pub fn locate(candidates: &Vec<String>, wanted: Option<ElfIdentity>, probes: &[Probe]) -> (r:
    Located)
    ensures
        r.outcome.deep_view() == searched(candidates.deep_view(), probes.deep_view(), wanted),
        r.key@ == taken_key(candidates@.len(), probes.deep_view(), wanted),
{
    let ghost seen = probes.deep_view();
    let ghost all = candidates.deep_view();
    let mut other: Option<(usize, ElfIdentity)> = None;
    let mut bad: Option<(usize, IdentifyError)> = None;
    let mut i: usize = 0;
    while i < candidates.len() && i < probes.len()
        invariant
            i <= candidates@.len(),
            i <= probes@.len(),
            seen == probes.deep_view(),
            all == candidates.deep_view(),
            first_below(i as int, usable(seen, wanted)) is None,
            other is Some <==> first_below(i as int, mismatched(seen, wanted)) is Some,
            other matches Some((k, found)) ==> k < i && first_below(
                i as int,
                mismatched(seen, wanted),
            ) == Some(k as int) && verdict_at(seen, wanted, k as int) == Verdict::Mismatched(found),
            bad is Some <==> first_below(i as int, broken(seen, wanted)) is Some,
            bad matches Some((k, reason)) ==> k < i && first_below(
                i as int,
                broken(seen, wanted),
            ) == Some(k as int) && verdict_at(seen, wanted, k as int) == Verdict::Broken(reason),
        decreases candidates@.len() - i,
    {
        assert(seen[i as int] == probes@[i as int].deep_view());
        match &probes[i] {
            Probe::Absent => {},
            Probe::File { head, key } => {
                let identity: Option<Result<ElfIdentity, IdentifyError>> = match wanted {
                    Some(_) => Some(identify(head.as_slice())),
                    None => None,
                };
                match (wanted, identity) {
                    (Some(want), Some(Ok(found))) => {
                        if found.matches(want) {
                            proof {
                                lemma_first_stays(i + 1, all.len() as int, usable(seen, wanted));
                            }
                            return Located {
                                outcome: SearchOutcome::Found(candidates[i].clone()),
                                key: key.clone(),
                            };
                        }
                        if other.is_none() {
                            other = Some((i, found));
                        }
                    },
                    (Some(_), Some(Err(reason))) => {
                        if bad.is_none() {
                            bad = Some((i, reason));
                        }
                    },
                    _ => {
                        proof {
                            lemma_first_stays(i + 1, all.len() as int, usable(seen, wanted));
                        }
                        return Located {
                            outcome: SearchOutcome::Found(candidates[i].clone()),
                            key: key.clone(),
                        };
                    },
                }
            },
        }
        i += 1;
    }
    proof {
        lemma_unprobed(i as int, all.len() as int, seen, wanted);
    }
    let outcome: SearchOutcome = match other {
        Some((k, found)) => SearchOutcome::WrongArchitecture(candidates[k].clone(), found),
        None => match bad {
            Some((k, reason)) => SearchOutcome::Unusable(candidates[k].clone(), reason.message()),
            None => SearchOutcome::Missing,
        },
    };
    Located { outcome, key: String::new() }
}

/// Places without a probe change nothing.
proof fn lemma_unprobed(m: int, n: int, probes: Seq<ProbeView>, wanted: Option<ElfIdentity>)
    requires
        0 <= m <= n,
        m == n || m >= probes.len(),
    ensures
        first_below(n, usable(probes, wanted)) == first_below(m, usable(probes, wanted)),
        first_below(n, mismatched(probes, wanted)) == first_below(m, mismatched(probes, wanted)),
        first_below(n, broken(probes, wanted)) == first_below(m, broken(probes, wanted)),
    decreases n - m,
{
    if m < n {
        lemma_unprobed(m, n - 1, probes, wanted);
    }
}

// ---------------------------------------------------------------------------
// Where a name is looked for
// ---------------------------------------------------------------------------

/// Resolves `DT_NEEDED` names against the search path.
pub struct Resolver {
    env_dirs: Vec<String>,
    cache: Vec<CacheEntry>,
    defaults: Vec<String>,
}

/// What a [`Resolver`] goes by.
pub struct ResolverView {
    pub env_dirs: Seq<Seq<char>>,
    pub cache: Seq<CacheEntryView>,
    pub defaults: Seq<Seq<char>>,
}

impl DeepView for Resolver {
    type V = ResolverView;

    closed spec fn deep_view(&self) -> ResolverView {
        ResolverView {
            env_dirs: self.env_dirs.deep_view(),
            cache: self.cache.deep_view(),
            defaults: self.defaults.deep_view(),
        }
    }
}

/// A name in each of some directories.
pub open spec fn in_each(dirs: Seq<Seq<char>>, name: Seq<char>) -> Seq<Seq<char>> {
    Seq::new(dirs.len(), |i: int| path::join(dirs[i], name))
}

/// The paths that the cache gives for a name.
pub open spec fn cached(cache: Seq<CacheEntryView>, name: Seq<char>) -> Seq<Seq<char>>
    decreases cache.len(),
{
    if cache.len() == 0 {
        Seq::empty()
    } else {
        let rest = cached(cache.drop_last(), name);
        if cache.last().name == name {
            rest.push(cache.last().path)
        } else {
            rest
        }
    }
}

impl ResolverView {
    /// The places where a name is looked for, in order. A name with a slash is
    /// a path, and is used verbatim.
    pub open spec fn places(
        self,
        name: Seq<char>,
        rpath: Seq<Seq<char>>,
        runpath: Seq<Seq<char>>,
    ) -> Seq<Seq<char>> {
        if name.contains('/') {
            seq![name]
        } else {
            in_each(rpath, name) + in_each(self.env_dirs, name) + in_each(runpath, name) + cached(
                self.cache,
                name,
            ) + in_each(self.defaults, name)
        }
    }
}

/// Appends a name in each of some directories.
fn push_joined(out: &mut Vec<String>, dirs: &[String], name: &str)
    ensures
        final(out).deep_view() == old(out).deep_view() + in_each(dirs.deep_view(), name@),
{
    let ghost before = out.deep_view();
    let ghost added = in_each(dirs.deep_view(), name@);
    let mut i: usize = 0;
    assert(out.deep_view() =~= before + added.take(0));
    while i < dirs.len()
        invariant
            i <= dirs@.len(),
            added == in_each(dirs.deep_view(), name@),
            out.deep_view() == before + added.take(i as int),
        decreases dirs@.len() - i,
    {
        let ghost so_far = out.deep_view();
        let place: String = path::joined(dirs[i].as_str(), name);
        let ghost text = place@;
        assert(text == added[i as int]);
        out.push(place);
        assert(out.deep_view() =~= so_far.push(text));
        i += 1;
        assert(out.deep_view() =~= before + added.take(i as int));
    }
    assert(added.take(i as int) =~= added);
}

/// Appends the paths that the cache gives for a name.
fn push_cached(out: &mut Vec<String>, cache: &Vec<CacheEntry>, name: &str)
    ensures
        final(out).deep_view() == old(out).deep_view() + cached(cache.deep_view(), name@),
{
    let ghost before = out.deep_view();
    let ghost all = cache.deep_view();
    let mut i: usize = 0;
    assert(all.take(0) =~= Seq::<CacheEntryView>::empty());
    assert(out.deep_view() =~= before + cached(all.take(0), name@));
    while i < cache.len()
        invariant
            i <= cache@.len(),
            all == cache.deep_view(),
            out.deep_view() == before + cached(all.take(i as int), name@),
        decreases cache@.len() - i,
    {
        let ghost so_far = out.deep_view();
        assert(all.take(i + 1).drop_last() =~= all.take(i as int));
        assert(all[i as int] == cache@[i as int].deep_view());
        if text::same_text(cache[i].name.as_str(), name) {
            out.push(cache[i].path.clone());
            assert(out.deep_view() =~= so_far.push(all[i as int].path));
        }
        i += 1;
        assert(out.deep_view() =~= before + cached(all.take(i as int), name@));
    }
    assert(all.take(i as int) =~= all);
}

impl Resolver {
    /// Builds a resolver from the value of `LD_LIBRARY_PATH`, the `ld.so`
    /// cache, and the directories that `ld.so.conf` lists.
    pub fn new(library_path: Option<&str>, cache: Vec<CacheEntry>, conf_dirs: &Vec<String>) -> (r:
        Self)
        ensures
            r.deep_view() == (ResolverView {
                env_dirs: env_paths(library_path.deep_view()),
                cache: cache.deep_view(),
                defaults: default_places(conf_dirs.deep_view()),
            }),
    {
        Resolver { env_dirs: env_dirs(library_path), cache, defaults: default_dirs(conf_dirs) }
    }

    /// The directories taken from `LD_LIBRARY_PATH`.
    pub fn env_dirs(&self) -> (r: &[String])
        ensures
            r.deep_view() == self.deep_view().env_dirs,
    {
        self.env_dirs.as_slice()
    }

    /// The places where a name is looked for, in order.
    pub fn candidates(&self, name: &str, rpath: &[String], runpath: &[String]) -> (r: Vec<String>)
        ensures
            r.deep_view() == self.deep_view().places(
                name@,
                rpath.deep_view(),
                runpath.deep_view(),
            ),
    {
        let mut out: Vec<String> = Vec::new();
        assert(out.deep_view() =~= Seq::<Seq<char>>::empty());
        let chars: Vec<char> = text::chars_of(name);
        if text::has_char(chars.as_slice(), '/') {
            out.push(name.to_owned());
            assert(out.deep_view() =~= seq![name@]);
            return out;
        }
        push_joined(&mut out, rpath, name);
        push_joined(&mut out, self.env_dirs.as_slice(), name);
        push_joined(&mut out, runpath, name);
        push_cached(&mut out, &self.cache, name);
        push_joined(&mut out, self.defaults.as_slice(), name);
        assert(out.deep_view() =~= self.deep_view().places(
            name@,
            rpath.deep_view(),
            runpath.deep_view(),
        ));
        out
    }

    /// Finds `name`, searching `rpath` then `LD_LIBRARY_PATH` then `runpath`
    /// then the cache then the defaults. `rpath` should already be empty if the
    /// loading object has a `DT_RUNPATH`. The probes tell what stands at each
    /// of the [`candidates`](Resolver::candidates).
    ///
    /// Candidates whose ELF class or machine does not match `wanted` are
    /// skipped, mirroring the loader. If only mismatched candidates exist, the
    /// first is reported as [`SearchOutcome::WrongArchitecture`] rather than
    /// being silently accepted.
    pub fn search(
        &self,
        name: &str,
        wanted: Option<ElfIdentity>,
        rpath: &[String],
        runpath: &[String],
        probes: &[Probe],
    ) -> (r: SearchOutcome)
        ensures
            r.deep_view() == searched(
                self.deep_view().places(name@, rpath.deep_view(), runpath.deep_view()),
                probes.deep_view(),
                wanted,
            ),
    {
        locate(&self.candidates(name, rpath, runpath), wanted, probes).outcome
    }
}

/// The directories of an `LD_LIBRARY_PATH` value.
pub open spec fn env_paths(library_path: Option<Seq<char>>) -> Seq<Seq<char>> {
    match library_path {
        Some(value) => elf::paths_in(value),
        None => Seq::empty(),
    }
}

/// The directories of an `LD_LIBRARY_PATH` value.
fn env_dirs(library_path: Option<&str>) -> (r: Vec<String>)
    ensures
        r.deep_view() == env_paths(library_path.deep_view()),
{
    match library_path {
        Some(value) => elf::split_paths(value),
        None => {
            let none: Vec<String> = Vec::new();
            assert(none.deep_view() =~= Seq::<Seq<char>>::empty());
            none
        },
    }
}

/// The directories that are searched whatever the configuration.
pub open spec fn fixed_places() -> Seq<Seq<char>> {
    seq![
        "/lib"@,
        "/usr/lib"@,
        "/lib64"@,
        "/usr/lib64"@,
        "/usr/local/lib"@,
        "/lib/x86_64-linux-gnu"@,
        "/usr/lib/x86_64-linux-gnu"@,
        "/lib/i386-linux-gnu"@,
        "/usr/lib/i386-linux-gnu"@,
        "/lib/aarch64-linux-gnu"@,
        "/usr/lib/aarch64-linux-gnu"@,
        "/lib/arm-linux-gnueabihf"@,
        "/usr/lib/arm-linux-gnueabihf"@,
        "/lib/riscv64-linux-gnu"@,
        "/usr/lib/riscv64-linux-gnu"@,
        "/lib/powerpc64le-linux-gnu"@,
        "/usr/lib/powerpc64le-linux-gnu"@,
        "/lib/s390x-linux-gnu"@,
        "/usr/lib/s390x-linux-gnu"@,
        "/lib/loongarch64-linux-gnu"@,
        "/usr/lib/loongarch64-linux-gnu"@,
    ]
}

/// A list without the paths that stand earlier in it.
pub open spec fn without_repeats(dirs: Seq<Seq<char>>) -> Seq<Seq<char>>
    decreases dirs.len(),
{
    if dirs.len() == 0 {
        Seq::empty()
    } else {
        let rest = without_repeats(dirs.drop_last());
        if path::listed(rest, dirs.last()) {
            rest
        } else {
            rest.push(dirs.last())
        }
    }
}

/// The default directories, plus what `ld.so.conf` lists.
pub open spec fn default_places(conf_dirs: Seq<Seq<char>>) -> Seq<Seq<char>> {
    without_repeats(fixed_places() + conf_dirs)
}

/// Appends a directory unless it is in the list.
fn push_new(out: &mut Vec<String>, dir: &str, before: Ghost<Seq<Seq<char>>>)
    requires
        old(out).deep_view() == without_repeats(before@),
    ensures
        final(out).deep_view() == without_repeats(before@.push(dir@)),
{
    let ghost so_far = out.deep_view();
    assert(before@.push(dir@).drop_last() =~= before@);
    if !path::is_listed(out, dir) {
        out.push(dir.to_owned());
        assert(out.deep_view() =~= so_far.push(dir@));
    }
}

/// The default directories, plus anything configured in `ld.so.conf`.
pub fn default_dirs(conf_dirs: &Vec<String>) -> (r: Vec<String>)
    ensures
        r.deep_view() == default_places(conf_dirs.deep_view()),
{
    let fixed: [&'static str; 21] = [
        "/lib",
        "/usr/lib",
        "/lib64",
        "/usr/lib64",
        "/usr/local/lib",
        "/lib/x86_64-linux-gnu",
        "/usr/lib/x86_64-linux-gnu",
        "/lib/i386-linux-gnu",
        "/usr/lib/i386-linux-gnu",
        "/lib/aarch64-linux-gnu",
        "/usr/lib/aarch64-linux-gnu",
        "/lib/arm-linux-gnueabihf",
        "/usr/lib/arm-linux-gnueabihf",
        "/lib/riscv64-linux-gnu",
        "/usr/lib/riscv64-linux-gnu",
        "/lib/powerpc64le-linux-gnu",
        "/usr/lib/powerpc64le-linux-gnu",
        "/lib/s390x-linux-gnu",
        "/usr/lib/s390x-linux-gnu",
        "/lib/loongarch64-linux-gnu",
        "/usr/lib/loongarch64-linux-gnu",
    ];
    let ghost all = fixed_places();
    assert forall|k: int| 0 <= k < 21 implies #[trigger] fixed@[k]@ == all[k] by {}
    let mut out: Vec<String> = Vec::new();
    assert(out.deep_view() =~= Seq::<Seq<char>>::empty());
    assert(all.take(0) =~= Seq::<Seq<char>>::empty());
    let mut i: usize = 0;
    while i < 21
        invariant
            i <= 21,
            all == fixed_places(),
            forall|k: int| 0 <= k < 21 ==> #[trigger] fixed@[k]@ == all[k],
            out.deep_view() == without_repeats(all.take(i as int)),
        decreases 21 - i,
    {
        push_new(&mut out, fixed[i], Ghost(all.take(i as int)));
        assert(all.take(i as int).push(all[i as int]) =~= all.take(i + 1));
        i += 1;
    }
    let ghost more = conf_dirs.deep_view();
    assert(all.take(21) =~= all + more.take(0));
    let mut j: usize = 0;
    while j < conf_dirs.len()
        invariant
            j <= conf_dirs@.len(),
            all == fixed_places(),
            more == conf_dirs.deep_view(),
            out.deep_view() == without_repeats(all + more.take(j as int)),
        decreases conf_dirs@.len() - j,
    {
        push_new(&mut out, conf_dirs[j].as_str(), Ghost(all + more.take(j as int)));
        assert((all + more.take(j as int)).push(more[j as int]) =~= all + more.take(j + 1));
        j += 1;
    }
    assert(more.take(j as int) =~= more);
    out
}

// ---------------------------------------------------------------------------
// The cache
// ---------------------------------------------------------------------------

/// What one line of `ldconfig -p` says, such as
/// `libfoo.so.1 (libc6,x86-64) => /usr/lib/libfoo.so.1`.
pub open spec fn cache_line(line: Seq<char>) -> Option<CacheEntryView> {
    match text::split_once(text::trimmed(line), " ("@) {
        None => None,
        Some((name, rest)) => match text::split_once(rest, ") => "@) {
            None => None,
            Some((arch, place)) => if text::trimmed(place).len() == 0 {
                None
            } else {
                Some(
                    CacheEntryView {
                        name: text::trimmed(name),
                        arch: text::trimmed(arch),
                        path: text::trimmed(place),
                    },
                )
            },
        },
    }
}

/// What the lines of `ldconfig -p` say.
pub open spec fn cache_lines(lines: Seq<Seq<char>>) -> Seq<CacheEntryView>
    decreases lines.len(),
{
    if lines.len() == 0 {
        Seq::empty()
    } else {
        let rest = cache_lines(lines.drop_last());
        match cache_line(lines.last()) {
            Some(entry) => rest.push(entry),
            None => rest,
        }
    }
}

/// What a listing of `ldconfig -p` says.
pub open spec fn listed_cache(listing: Seq<char>) -> Seq<CacheEntryView> {
    cache_lines(text::split_on(listing, '\n'))
}

/// The first listing that says anything.
pub open spec fn first_cache(listings: Seq<Seq<char>>) -> Seq<CacheEntryView>
    decreases listings.len(),
{
    if listings.len() == 0 {
        Seq::empty()
    } else if listed_cache(listings[0]).len() > 0 {
        listed_cache(listings[0])
    } else {
        first_cache(listings.drop_first())
    }
}

/// Reads one line of a listing.
fn read_cache_line(line: &[char]) -> (r: Option<CacheEntry>)
    ensures
        r is Some <==> cache_line(line@) is Some,
        r matches Some(entry) ==> cache_line(line@) == Some(entry.deep_view()),
{
    let open: Vec<char> = text::chars_of(" (");
    let arrow: Vec<char> = text::chars_of(") => ");
    proof {
        reveal_strlit(" (");
        reveal_strlit(") => ");
    }
    let (name, rest): (Vec<char>, Vec<char>) = match text::cut_once(
        text::trim(line),
        open.as_slice(),
    ) {
        Some(parts) => parts,
        None => {
            return None;
        },
    };
    let (arch, place): (Vec<char>, Vec<char>) = match text::cut_once(
        rest.as_slice(),
        arrow.as_slice(),
    ) {
        Some(parts) => parts,
        None => {
            return None;
        },
    };
    let place: &[char] = text::trim(place.as_slice());
    if place.len() == 0 {
        return None;
    }
    Some(
        CacheEntry {
            name: text::string_of(text::trim(name.as_slice())),
            arch: text::string_of(text::trim(arch.as_slice())),
            path: text::string_of(place),
        },
    )
}

/// Parses a listing of `ldconfig -p`.
pub fn parse_ld_cache(text: &str) -> (r: Vec<CacheEntry>)
    ensures
        r.deep_view() == listed_cache(text@),
{
    let chars: Vec<char> = text::chars_of(text);
    let lines: Vec<Vec<char>> = text::split_chars(chars.as_slice(), '\n');
    let ghost all = lines.deep_view();
    let mut entries: Vec<CacheEntry> = Vec::new();
    let mut i: usize = 0;
    assert(all.take(0) =~= Seq::<Seq<char>>::empty());
    assert(entries.deep_view() =~= Seq::<CacheEntryView>::empty());
    while i < lines.len()
        invariant
            i <= lines@.len(),
            all == lines.deep_view(),
            entries.deep_view() == cache_lines(all.take(i as int)),
        decreases lines@.len() - i,
    {
        let ghost so_far = entries.deep_view();
        assert(all.take(i + 1).drop_last() =~= all.take(i as int));
        assert(all[i as int] =~= lines@[i as int]@);
        match read_cache_line(lines[i].as_slice()) {
            Some(entry) => {
                let ghost added = entry.deep_view();
                entries.push(entry);
                assert(entries.deep_view() =~= so_far.push(added));
            },
            None => {},
        }
        i += 1;
    }
    assert(all.take(i as int) =~= all);
    entries
}

/// Picks the cache listing to go by: the first of those that `ldconfig -p`
/// printed, under the names it may be called by, that says anything.
///
/// The cache is used rather than parsing `/etc/ld.so.cache` directly because
/// its binary format is private to glibc. When `ldconfig` is unavailable the
/// search falls back to the configured directories.
pub fn ld_cache(listings: &Vec<String>) -> (r: Vec<CacheEntry>)
    ensures
        r.deep_view() == first_cache(listings.deep_view()),
{
    let ghost all = listings.deep_view();
    let mut i: usize = 0;
    assert(all.skip(0) =~= all);
    while i < listings.len()
        invariant
            i <= listings@.len(),
            all == listings.deep_view(),
            first_cache(all) == first_cache(all.skip(i as int)),
        decreases listings@.len() - i,
    {
        let entries: Vec<CacheEntry> = parse_ld_cache(listings[i].as_str());
        assert(all[i as int] == listings@[i as int]@);
        assert(all.skip(i as int).drop_first() =~= all.skip(i + 1));
        if entries.len() > 0 {
            return entries;
        }
        i += 1;
    }
    let none: Vec<CacheEntry> = Vec::new();
    assert(none.deep_view() =~= Seq::<CacheEntryView>::empty());
    none
}

// ---------------------------------------------------------------------------
// Search paths inside objects
// ---------------------------------------------------------------------------

/// The directory that `$ORIGIN` stands for.
pub open spec fn origin_of(object: Seq<char>) -> Seq<char> {
    match path::parent(object) {
        Some(dir) => dir,
        None => "."@,
    }
}

/// The directory name that `$LIB` stands for.
pub open spec fn lib_of(class: Class, arch: Seq<char>) -> Seq<char> {
    if class is Elf64 && arch == "x86_64"@ {
        "lib64"@
    } else {
        "lib"@
    }
}

/// An rpath or runpath entry with its variables replaced.
pub open spec fn expanded(
    entry: Seq<char>,
    origin: Seq<char>,
    lib: Seq<char>,
    platform: Seq<char>,
) -> Seq<char> {
    let a = text::replaced(entry, "${ORIGIN}"@, origin);
    let b = text::replaced(a, "$ORIGIN"@, origin);
    let c = text::replaced(b, "${LIB}"@, lib);
    let d = text::replaced(c, "$LIB"@, lib);
    let e = text::replaced(d, "${PLATFORM}"@, platform);
    text::replaced(e, "$PLATFORM"@, platform)
}

/// The rpath or runpath entries of an object, on a host.
pub open spec fn expanded_dirs(elf: ElfView, raw: Seq<Seq<char>>, arch: Seq<char>) -> Seq<
    Seq<char>,
> {
    Seq::new(
        raw.len(),
        |i: int|
            expanded(
                raw[i],
                origin_of(elf.path),
                lib_of(elf.class, arch),
                elf::host_text(arch),
            ),
    )
}

/// Replaces one variable.
fn replace_variable(s: Vec<char>, variable: &str, by: &[char]) -> (r: Vec<char>)
    requires
        variable@.len() > 0,
    ensures
        r@ == text::replaced(s@, variable@, by@),
{
    let p: Vec<char> = text::chars_of(variable);
    text::replace_text(s.as_slice(), p.as_slice(), by)
}

/// Replaces the variables in one entry.
fn expand_entry(entry: &str, origin: &[char], lib: &[char], platform: &[char]) -> (r: String)
    ensures
        r@ == expanded(entry@, origin@, lib@, platform@),
{
    proof {
        reveal_strlit("${ORIGIN}");
        reveal_strlit("$ORIGIN");
        reveal_strlit("${LIB}");
        reveal_strlit("$LIB");
        reveal_strlit("${PLATFORM}");
        reveal_strlit("$PLATFORM");
    }
    let s: Vec<char> = text::chars_of(entry);
    let s: Vec<char> = replace_variable(s, "${ORIGIN}", origin);
    let s: Vec<char> = replace_variable(s, "$ORIGIN", origin);
    let s: Vec<char> = replace_variable(s, "${LIB}", lib);
    let s: Vec<char> = replace_variable(s, "$LIB", lib);
    let s: Vec<char> = replace_variable(s, "${PLATFORM}", platform);
    let s: Vec<char> = replace_variable(s, "$PLATFORM", platform);
    text::string_of(s.as_slice())
}

/// Expands `$ORIGIN`, `$LIB` and `$PLATFORM` in rpath/runpath entries, on a
/// host of the given architecture.
///
/// `$ORIGIN` is resolved exactly. `$LIB` and `$PLATFORM` are approximated from
/// the object's class and the host architecture, which covers the common cases;
/// they are rare outside build trees.
pub fn expand_dirs(elf: &ElfFile, raw: &[String], arch: &str) -> (r: Vec<String>)
    ensures
        r.deep_view() == expanded_dirs(elf.deep_view(), raw.deep_view(), arch@),
{
    let object: Vec<char> = text::chars_of(elf.path.as_str());
    let origin: Vec<char> = match path::parent_of(object.as_slice()) {
        Some(dir) => dir,
        None => text::chars_of("."),
    };
    let lib: Vec<char> = match elf.class {
        Class::Elf64 => if text::same_text(arch, "x86_64") {
            text::chars_of("lib64")
        } else {
            text::chars_of("lib")
        },
        Class::Elf32 => text::chars_of("lib"),
    };
    let platform: Vec<char> = text::chars_of(elf::host_name(arch));
    let ghost all = expanded_dirs(elf.deep_view(), raw.deep_view(), arch@);
    let mut out: Vec<String> = Vec::new();
    let mut i: usize = 0;
    assert(out.deep_view() =~= all.take(0));
    while i < raw.len()
        invariant
            i <= raw@.len(),
            all == expanded_dirs(elf.deep_view(), raw.deep_view(), arch@),
            origin@ == origin_of(elf.deep_view().path),
            lib@ == lib_of(elf.deep_view().class, arch@),
            platform@ == elf::host_text(arch@),
            out.deep_view() == all.take(i as int),
        decreases raw@.len() - i,
    {
        let ghost so_far = out.deep_view();
        let dir: String = expand_entry(
            raw[i].as_str(),
            origin.as_slice(),
            lib.as_slice(),
            platform.as_slice(),
        );
        let ghost added = dir@;
        assert(added == all[i as int]);
        out.push(dir);
        assert(out.deep_view() =~= so_far.push(added));
        i += 1;
        assert(out.deep_view() =~= all.take(i as int));
    }
    assert(all.take(i as int) =~= all);
    out
}

// ---------------------------------------------------------------------------
// Laws
// ---------------------------------------------------------------------------

/// The identity of a file is in its first bytes.
pub proof fn identity_is_in_the_head(d: Seq<u8>)
    requires
        d.len() >= IDENTITY_SIZE,
    ensures
        identified(d.take(IDENTITY_SIZE as int)) == identified(d),
{
    let head = d.take(IDENTITY_SIZE as int);
    assert(head.take(4) =~= d.take(4));
    assert(head.subrange(18, 20) =~= d.subrange(18, 20));
}

/// An object that parses is identified, as what it parses to.
pub proof fn parsed_objects_are_identified(path: Seq<char>, d: Seq<u8>)
    ensures
        elf::parsed(path, d) matches Ok(object) ==> identified(d) == Ok::<
            ElfIdentity,
            IdentifyError,
        >(identity_of(object)),
{
}

/// The first place with a usable object wins, whatever stands further on.
pub proof fn the_first_usable_place_wins(
    candidates: Seq<Seq<char>>,
    probes: Seq<ProbeView>,
    wanted: Option<ElfIdentity>,
    i: int,
)
    requires
        0 <= i < candidates.len(),
        verdict_at(probes, wanted, i) is Usable,
        forall|k: int| 0 <= k < i ==> !(#[trigger] verdict_at(probes, wanted, k) is Usable),
    ensures
        searched(candidates, probes, wanted) == OutcomeView::Found(candidates[i]),
        taken_key(candidates.len(), probes, wanted) == probes[i]->key,
{
    let p = usable(probes, wanted);
    lemma_first_below(candidates.len() as int, p);
    assert(p(i));
    match first_below(candidates.len() as int, p) {
        Some(k) => {
            if k < i {
                assert(verdict_at(probes, wanted, k) is Usable);
            }
        },
        None => {},
    }
}

/// What is found is one of the candidates, and has the class and the machine
/// that were asked for.
pub proof fn never_the_wrong_architecture(
    candidates: Seq<Seq<char>>,
    probes: Seq<ProbeView>,
    want: ElfIdentity,
)
    ensures
        searched(candidates, probes, Some(want)) matches OutcomeView::Found(place) ==> exists|i: int|
            0 <= i < candidates.len() && i < probes.len() && place == #[trigger] candidates[i]
                && probes[i] is File && identified(probes[i]->head) == Ok::<
                ElfIdentity,
                IdentifyError,
            >(want),
        searched(candidates, probes, Some(want)) matches OutcomeView::WrongArchitecture(_, found)
            ==> found != want,
{
    let n = candidates.len() as int;
    let wanted = Some(want);
    lemma_first_below(n, usable(probes, wanted));
    lemma_first_below(n, mismatched(probes, wanted));
    match first_below(n, usable(probes, wanted)) {
        Some(i) => {
            assert(candidates[i] == candidates[i]);
        },
        None => {},
    }
}

/// A name is missing if and only if no file stands in any of the places.
pub proof fn missing_means_absent(
    candidates: Seq<Seq<char>>,
    probes: Seq<ProbeView>,
    wanted: Option<ElfIdentity>,
)
    ensures
        searched(candidates, probes, wanted) is Missing <==> forall|i: int|
            0 <= i < candidates.len() && i < probes.len() ==> #[trigger] probes[i] is Absent,
{
    let n = candidates.len() as int;
    let a = usable(probes, wanted);
    let b = mismatched(probes, wanted);
    let c = broken(probes, wanted);
    lemma_first_below(n, a);
    lemma_first_below(n, b);
    lemma_first_below(n, c);
    if searched(candidates, probes, wanted) is Missing {
        assert forall|i: int| 0 <= i < candidates.len() && i < probes.len() implies #[trigger]
        probes[i] is Absent by {
            assert(!a(i) && !b(i) && !c(i));
        }
    }
}

/// A near miss is reported only where nothing usable stands, and a file that
/// is no ELF object only where none of another architecture stands either.
pub proof fn near_misses_come_last(
    candidates: Seq<Seq<char>>,
    probes: Seq<ProbeView>,
    wanted: Option<ElfIdentity>,
    i: int,
)
    requires
        0 <= i < candidates.len(),
    ensures
        searched(candidates, probes, wanted) is WrongArchitecture ==> !(verdict_at(
            probes,
            wanted,
            i,
        ) is Usable),
        searched(candidates, probes, wanted) is Unusable ==> !(verdict_at(
            probes,
            wanted,
            i,
        ) is Usable) && !(verdict_at(probes, wanted, i) is Mismatched),
{
    let n = candidates.len() as int;
    let a = usable(probes, wanted);
    let b = mismatched(probes, wanted);
    lemma_first_below(n, a);
    lemma_first_below(n, b);
    assert(a(i) == (verdict_at(probes, wanted, i) is Usable));
    assert(b(i) == (verdict_at(probes, wanted, i) is Mismatched));
}

/// Once something is found, further probes change nothing.
pub proof fn finds_are_final(
    candidates: Seq<Seq<char>>,
    probes: Seq<ProbeView>,
    wanted: Option<ElfIdentity>,
    k: int,
)
    requires
        0 <= k <= probes.len(),
        searched(candidates, probes.take(k), wanted) is Found,
    ensures
        searched(candidates, probes, wanted) == searched(candidates, probes.take(k), wanted),
        taken_key(candidates.len(), probes, wanted) == taken_key(
            candidates.len(),
            probes.take(k),
            wanted,
        ),
{
    let n = candidates.len() as int;
    let front = probes.take(k);
    let p = usable(front, wanted);
    lemma_first_below(n, p);
    lemma_first_below(n, mismatched(front, wanted));
    let i = first_below(n, p)->0;
    assert(p(i));
    assert forall|j: int| 0 <= j <= i implies verdict_at(probes, wanted, j) == #[trigger] verdict_at(
        front,
        wanted,
        j,
    ) by {
        assert(front[j] == probes[j]);
    }
    assert forall|j: int| 0 <= j < i implies !(#[trigger] verdict_at(
        probes,
        wanted,
        j,
    ) is Usable) by {
        assert(!p(j));
        assert(verdict_at(probes, wanted, j) == verdict_at(front, wanted, j));
    }
    assert(verdict_at(probes, wanted, i) == verdict_at(front, wanted, i));
    the_first_usable_place_wins(candidates, probes, wanted, i);
}

proof fn lemma_without_repeats(dirs: Seq<Seq<char>>)
    ensures
        path::once_each(without_repeats(dirs)),
        forall|i: int|
            0 <= i < dirs.len() ==> path::listed(without_repeats(dirs), #[trigger] dirs[i]),
    decreases dirs.len(),
{
    if dirs.len() > 0 {
        let front = dirs.drop_last();
        lemma_without_repeats(front);
        let rest = without_repeats(front);
        let whole = without_repeats(dirs);
        assert forall|i: int, j: int| 0 <= i < j < whole.len() implies !path::same_path(
            #[trigger] whole[i],
            #[trigger] whole[j],
        ) by {
            if j == rest.len() {
                assert(whole[i] == rest[i]);
            }
        }
        assert forall|i: int| 0 <= i < dirs.len() implies path::listed(
            whole,
            #[trigger] dirs[i],
        ) by {
            if i < front.len() {
                assert(front[i] == dirs[i]);
                assert(path::listed(rest, front[i]));
                let k = choose|k: int|
                    0 <= k < rest.len() && path::same_path(#[trigger] rest[k], front[i]);
                assert(whole[k] == rest[k]);
            } else if !path::listed(rest, dirs[i]) {
                assert(whole[rest.len() as int] == dirs[i]);
            }
        }
    }
}

/// No default directory is searched twice, and none that is fixed or
/// configured is left out.
pub proof fn default_directories_are_searched_once(conf_dirs: Seq<Seq<char>>, i: int)
    ensures
        path::once_each(default_places(conf_dirs)),
        0 <= i < fixed_places().len() ==> path::listed(
            default_places(conf_dirs),
            fixed_places()[i],
        ),
        0 <= i < conf_dirs.len() ==> path::listed(default_places(conf_dirs), conf_dirs[i]),
{
    let all = fixed_places() + conf_dirs;
    lemma_without_repeats(all);
    if 0 <= i < fixed_places().len() {
        assert(all[i] == fixed_places()[i]);
    }
    if 0 <= i < conf_dirs.len() {
        assert(all[fixed_places().len() + i] == conf_dirs[i]);
    }
}

/// Text that does not hold the first character of a pattern stays.
proof fn lemma_replaced_stays(s: Seq<char>, p: Seq<char>, by: Seq<char>)
    requires
        p.len() > 0,
        !s.contains(p[0]),
    ensures
        text::replaced(s, p, by) == s,
    decreases s.len(),
{
    if s.len() > 0 {
        assert(s[0] != p[0]) by {
            if s[0] == p[0] {
                assert(s.contains(p[0]));
            }
        }
        if text::starts_with(s, p) {
            assert(s.subrange(0, p.len() as int)[0] == s[0]);
        }
        let rest = s.drop_first();
        assert(!rest.contains(p[0])) by {
            if rest.contains(p[0]) {
                let i = choose|i: int| 0 <= i < rest.len() && rest[i] == p[0];
                assert(s[i + 1] == p[0]);
            }
        }
        lemma_replaced_stays(rest, p, by);
        assert(seq![s[0]] + rest =~= s);
    }
}

/// An rpath or runpath entry without a `$` is used as it stands.
pub proof fn entries_without_variables_stay(
    entry: Seq<char>,
    origin: Seq<char>,
    lib: Seq<char>,
    platform: Seq<char>,
)
    requires
        !entry.contains('$'),
    ensures
        expanded(entry, origin, lib, platform) == entry,
{
    reveal_strlit("${ORIGIN}");
    reveal_strlit("$ORIGIN");
    reveal_strlit("${LIB}");
    reveal_strlit("$LIB");
    reveal_strlit("${PLATFORM}");
    reveal_strlit("$PLATFORM");
    lemma_replaced_stays(entry, "${ORIGIN}"@, origin);
    lemma_replaced_stays(entry, "$ORIGIN"@, origin);
    lemma_replaced_stays(entry, "${LIB}"@, lib);
    lemma_replaced_stays(entry, "$LIB"@, lib);
    lemma_replaced_stays(entry, "${PLATFORM}"@, platform);
    lemma_replaced_stays(entry, "$PLATFORM"@, platform);
}

} // verus!
