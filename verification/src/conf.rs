//! The directories that `ld.so.conf` configures.
//!
//! The configuration is spread over files that name each other. What is known
//! of the files and directories is handed over in a [`ConfFiles`] table; where
//! the table does not say enough, the answer is the file or directory that it
//! has to tell about next.

use vstd::prelude::*;
use vstd::slice::slice_subrange;
use crate::order;
use crate::path;
use crate::table;
use crate::text;

verus! {

/// The file where the configuration starts.
pub const ROOT: &'static str = "/etc/ld.so.conf";

/// How deeply configuration files may name each other.
pub const MAX_DEPTH: usize = 8;

/// What is known of files and directories.
#[derive(Debug, Clone)]
pub struct ConfFiles {
    /// The text of each file, or nothing where it cannot be read.
    pub files: Vec<(String, Option<String>)>,
    /// The names in each directory, or nothing where it cannot be read.
    pub dirs: Vec<(String, Option<Vec<String>>)>,
}

/// What a [`ConfFiles`] holds.
pub struct ConfView {
    pub files: Seq<(Seq<char>, Option<Seq<char>>)>,
    pub dirs: Seq<(Seq<char>, Option<Seq<Seq<char>>>)>,
}

impl DeepView for ConfFiles {
    type V = ConfView;

    open spec fn deep_view(&self) -> ConfView {
        ConfView { files: self.files.deep_view(), dirs: self.dirs.deep_view() }
    }
}

/// What has to be known next.
#[derive(Debug, Clone)]
pub enum ConfRequest {
    /// The text of a file.
    File(String),
    /// The names in a directory.
    Directory(String),
}

/// What a [`ConfRequest`] asks for.
pub enum RequestView {
    File(Seq<char>),
    Directory(Seq<char>),
}

impl DeepView for ConfRequest {
    type V = RequestView;

    open spec fn deep_view(&self) -> RequestView {
        match self {
            ConfRequest::File(p) => RequestView::File(p@),
            ConfRequest::Directory(p) => RequestView::Directory(p@),
        }
    }
}

// ---------------------------------------------------------------------------
// Lines
// ---------------------------------------------------------------------------

/// What one line of a configuration file says.
pub enum ConfLine {
    Nothing,
    /// More files, by a pattern.
    Files(Seq<char>),
    Dir(Seq<char>),
}

/// What one line of a configuration file says. A `#` starts a comment.
pub open spec fn conf_line(line: Seq<char>) -> ConfLine {
    let l = text::trimmed(line.take(text::first_of(line, '#')));
    if text::starts_with(l, "include"@) {
        ConfLine::Files(text::trimmed(l.skip(7)))
    } else if path::is_absolute(l) {
        ConfLine::Dir(l)
    } else {
        ConfLine::Nothing
    }
}

/// A line, read.
enum Line {
    Nothing,
    Files(Vec<char>),
    Dir(Vec<char>),
}

/// Reads one line.
fn read_line(line: &[char]) -> (r: Line)
    ensures
        match r {
            Line::Nothing => conf_line(line@) is Nothing,
            Line::Files(p) => conf_line(line@) == ConfLine::Files(p@),
            Line::Dir(p) => conf_line(line@) == ConfLine::Dir(p@),
        },
{
    let end: usize = text::find_char(line, '#');
    let front: &[char] = slice_subrange(line, 0, end);
    assert(front@ =~= line@.take(end as int));
    let l: &[char] = text::trim(front);
    let word: Vec<char> = text::chars_of("include");
    proof {
        reveal_strlit("include");
    }
    if text::begins_with(l, word.as_slice()) {
        let rest: &[char] = slice_subrange(l, 7, l.len());
        assert(rest@ =~= l@.skip(7));
        Line::Files(text::slice_to_chars(text::trim(rest)))
    } else if l.len() > 0 && l[0] == '/' {
        Line::Dir(text::slice_to_chars(l))
    } else {
        Line::Nothing
    }
}

// ---------------------------------------------------------------------------
// Patterns
// ---------------------------------------------------------------------------

/// A name begins and ends as a pattern asks. All but the first `*` of the
/// pattern stand for themselves; without one, the name has to begin with it.
pub open spec fn fits(pattern: Seq<char>, name: Seq<char>) -> bool {
    match text::split_once(pattern, "*"@) {
        Some((prefix, suffix)) => text::starts_with(name, prefix) && text::ends_with(name, suffix),
        None => text::starts_with(name, pattern),
    }
}

/// The names that fit a pattern.
pub open spec fn fitting(pattern: Seq<char>, names: Seq<Seq<char>>) -> Seq<Seq<char>>
    decreases names.len(),
{
    if names.len() == 0 {
        Seq::empty()
    } else {
        let rest = fitting(pattern, names.drop_last());
        if fits(pattern, names.last()) {
            rest.push(names.last())
        } else {
            rest
        }
    }
}

/// Names to sort by.
pub open spec fn name_keys(names: Seq<Seq<char>>) -> Seq<(Seq<char>, Seq<char>)> {
    Seq::new(names.len(), |i: int| (names[i], Seq::<char>::empty()))
}

/// Names in order, each in a directory.
pub open spec fn sorted_in(dir: Seq<char>, names: Seq<Seq<char>>) -> Seq<Seq<char>> {
    let sorted = order::arranged(names, order::stable_order(name_keys(names)));
    Seq::new(sorted.len(), |i: int| path::join(dir, sorted[i]))
}

/// The files that a pattern names. Only the last component may hold a `*`.
pub open spec fn expansion(t: ConfView, pattern: Seq<char>) -> Result<Seq<Seq<char>>, RequestView> {
    if !pattern.contains('*') {
        Ok(seq![pattern])
    } else {
        match (path::parent(pattern), path::file_name(pattern)) {
            (Some(dir), Some(file)) => match table::known(t.dirs, dir) {
                None => Err(RequestView::Directory(dir)),
                Some(None) => Ok(Seq::empty()),
                Some(Some(names)) => Ok(sorted_in(dir, fitting(file, names))),
            },
            _ => Ok(Seq::empty()),
        }
    }
}

/// The names that fit a pattern.
fn list_fitting(pattern: &[char], names: &Vec<String>) -> (r: Vec<Vec<char>>)
    ensures
        r.deep_view() == fitting(pattern@, names.deep_view()),
{
    let star: Vec<char> = text::chars_of("*");
    proof {
        reveal_strlit("*");
    }
    let (prefix, suffix): (Vec<char>, Vec<char>) = match text::cut_once(pattern, star.as_slice()) {
        Some(parts) => parts,
        None => (text::slice_to_chars(pattern), Vec::new()),
    };
    let ghost all = names.deep_view();
    assert forall|name: Seq<char>| #[trigger]
        fits(pattern@, name) == (text::starts_with(name, prefix@) && text::ends_with(
            name,
            suffix@,
        )) by {
        if text::split_once(pattern@, "*"@) is None {
            assert(suffix@ =~= Seq::<char>::empty());
            assert(name.skip(name.len() as int) =~= Seq::<char>::empty());
            assert(name.subrange(name.len() as int, name.len() as int) =~= Seq::<char>::empty());
        }
    }
    let mut out: Vec<Vec<char>> = Vec::new();
    let mut i: usize = 0;
    assert(all.take(0) =~= Seq::<Seq<char>>::empty());
    assert(out.deep_view() =~= Seq::<Seq<char>>::empty());
    while i < names.len()
        invariant
            i <= names@.len(),
            all == names.deep_view(),
            forall|name: Seq<char>| #[trigger]
                fits(pattern@, name) == (text::starts_with(name, prefix@) && text::ends_with(
                    name,
                    suffix@,
                )),
            out.deep_view() == fitting(pattern@, all.take(i as int)),
        decreases names@.len() - i,
    {
        let ghost so_far = out.deep_view();
        assert(all.take(i + 1).drop_last() =~= all.take(i as int));
        let name: Vec<char> = text::chars_of(names[i].as_str());
        assert(all[i as int] == name@);
        if text::begins_with(name.as_slice(), prefix.as_slice()) && text::finishes_with(
            name.as_slice(),
            suffix.as_slice(),
        ) {
            let ghost added = name.deep_view();
            assert(added =~= name@);
            out.push(name);
            assert(out.deep_view() =~= so_far.push(added));
        }
        i += 1;
    }
    assert(all.take(i as int) =~= all);
    out
}

/// Names in order, each in a directory.
fn sort_in(dir: &str, names: &Vec<Vec<char>>) -> (r: Vec<String>)
    ensures
        r.deep_view() == sorted_in(dir@, names.deep_view()),
{
    let ghost all = names.deep_view();
    let ghost want_keys = name_keys(all);
    let mut keys: Vec<(Vec<char>, Vec<char>)> = Vec::new();
    let mut i: usize = 0;
    while i < names.len()
        invariant
            i <= names@.len(),
            all == names.deep_view(),
            want_keys == name_keys(all),
            keys.deep_view() == want_keys.take(i as int),
        decreases names@.len() - i,
    {
        let ghost so_far = keys.deep_view();
        let key: (Vec<char>, Vec<char>) = (text::slice_to_chars(names[i].as_slice()), Vec::new());
        let ghost added = key.deep_view();
        assert(all[i as int] =~= names@[i as int]@);
        assert(added.0 =~= all[i as int]);
        assert(added.1 =~= Seq::<char>::empty());
        keys.push(key);
        assert(keys.deep_view() =~= so_far.push(added));
        i += 1;
        assert(keys.deep_view() =~= want_keys.take(i as int));
    }
    assert(keys.deep_view() =~= want_keys);
    let sorted: Vec<usize> = order::sort_order(&keys);
    let ghost want = sorted_in(dir@, all);
    assert(want.len() == sorted@.len());
    let mut out: Vec<String> = Vec::new();
    let mut j: usize = 0;
    assert(out.deep_view() =~= want.take(0));
    while j < sorted.len()
        invariant
            j <= sorted@.len(),
            all == names.deep_view(),
            want == sorted_in(dir@, all),
            want.len() == sorted@.len(),
            order::indices(sorted@) == order::stable_order(name_keys(all)),
            forall|k: int| 0 <= k < sorted@.len() ==> #[trigger] sorted@[k] < names@.len(),
            out.deep_view() == want.take(j as int),
        decreases sorted@.len() - j,
    {
        let ghost so_far = out.deep_view();
        let at: usize = sorted[j];
        let name: String = text::string_of(names[at].as_slice());
        assert(order::indices(sorted@)[j as int] == at);
        assert(all[at as int] =~= names@[at as int]@);
        let place: String = path::joined(dir, name.as_str());
        let ghost added = place@;
        assert(added == want[j as int]);
        out.push(place);
        assert(out.deep_view() =~= so_far.push(added));
        j += 1;
        assert(out.deep_view() =~= want.take(j as int));
    }
    assert(out.deep_view() =~= want);
    out
}

/// Expands the single `*` glob that a line naming more files may use.
fn expand_pattern(t: &ConfFiles, pattern: &[char]) -> (r: Result<Vec<String>, ConfRequest>)
    ensures
        r matches Ok(files) ==> expansion(t.deep_view(), pattern@) == Ok::<
            Seq<Seq<char>>,
            RequestView,
        >(files.deep_view()),
        r matches Err(request) ==> expansion(t.deep_view(), pattern@) == Err::<
            Seq<Seq<char>>,
            RequestView,
        >(request.deep_view()),
{
    let mut out: Vec<String> = Vec::new();
    assert(out.deep_view() =~= Seq::<Seq<char>>::empty());
    if !text::has_char(pattern, '*') {
        out.push(text::string_of(pattern));
        assert(out.deep_view() =~= seq![pattern@]);
        return Ok(out);
    }
    match (path::parent_of(pattern), path::name_of(pattern)) {
        (Some(dir), Some(file)) => {
            let dir: String = text::string_of(dir.as_slice());
            match table::find(&t.dirs, dir.as_str()) {
                None => Err(ConfRequest::Directory(dir)),
                Some(i) => {
                    assert(t.dirs.deep_view()[i as int].1 == t.dirs@[i as int].1.deep_view());
                    match &t.dirs[i].1 {
                        None => Ok(out),
                        Some(names) => Ok(
                            sort_in(dir.as_str(), &list_fitting(file.as_slice(), names)),
                        ),
                    }
                },
            }
        },
        _ => Ok(out),
    }
}

// ---------------------------------------------------------------------------
// Files
// ---------------------------------------------------------------------------

/// How far the reading has come: the directories found, and the files read.
pub struct ConfState {
    pub dirs: Seq<Seq<char>>,
    pub seen: Seq<Seq<char>>,
}

/// The state after a file. A file is read once; what lies too deep is not.
pub open spec fn after_file(t: ConfView, file: Seq<char>, s: ConfState, depth: nat) -> Result<
    ConfState,
    RequestView,
>
    decreases MAX_DEPTH + 1 - depth, 2nat, 0nat,
{
    if depth > MAX_DEPTH || path::listed(s.seen, file) {
        Ok(s)
    } else {
        let seen = ConfState { dirs: s.dirs, seen: s.seen.push(file) };
        match table::known(t.files, file) {
            None => Err(RequestView::File(file)),
            Some(None) => Ok(seen),
            Some(Some(content)) => after_lines(t, text::split_on(content, '\n'), seen, depth),
        }
    }
}

/// The state after some lines.
pub open spec fn after_lines(t: ConfView, lines: Seq<Seq<char>>, s: ConfState, depth: nat) -> Result<
    ConfState,
    RequestView,
>
    decreases MAX_DEPTH + 1 - depth, 1nat, lines.len(),
    when depth <= MAX_DEPTH
{
    if lines.len() == 0 {
        Ok(s)
    } else {
        match after_lines(t, lines.drop_last(), s, depth) {
            Err(request) => Err(request),
            Ok(before) => match conf_line(lines.last()) {
                ConfLine::Nothing => Ok(before),
                ConfLine::Dir(dir) => Ok(
                    ConfState { dirs: before.dirs.push(dir), seen: before.seen },
                ),
                ConfLine::Files(pattern) => match expansion(t, pattern) {
                    Err(request) => Err(request),
                    Ok(files) => after_files(t, files, before, depth + 1),
                },
            },
        }
    }
}

/// The state after some files.
pub open spec fn after_files(t: ConfView, files: Seq<Seq<char>>, s: ConfState, depth: nat) -> Result<
    ConfState,
    RequestView,
>
    decreases MAX_DEPTH + 1 - depth, 3nat, files.len(),
{
    if files.len() == 0 {
        Ok(s)
    } else {
        match after_files(t, files.drop_last(), s, depth) {
            Err(request) => Err(request),
            Ok(before) => after_file(t, files.last(), before, depth),
        }
    }
}

/// The directories that the configuration lists, in order.
pub open spec fn conf_dirs(t: ConfView) -> Result<Seq<Seq<char>>, RequestView> {
    match after_file(t, ROOT@, ConfState { dirs: Seq::empty(), seen: Seq::empty() }, 0) {
        Ok(s) => Ok(s.dirs),
        Err(request) => Err(request),
    }
}

/// The state that two lists hold.
spec fn state_of(dirs: Vec<String>, seen: Vec<String>) -> ConfState {
    ConfState { dirs: dirs.deep_view(), seen: seen.deep_view() }
}

/// Reads a file and what it names.
fn parse_conf(
    t: &ConfFiles,
    file: &str,
    dirs: &mut Vec<String>,
    seen: &mut Vec<String>,
    depth: usize,
) -> (r: Result<(), ConfRequest>)
    requires
        depth <= MAX_DEPTH + 1,
    ensures
        r is Ok ==> after_file(
            t.deep_view(),
            file@,
            state_of(*old(dirs), *old(seen)),
            depth as nat,
        ) == Ok::<ConfState, RequestView>(state_of(*final(dirs), *final(seen))),
        r matches Err(request) ==> after_file(
            t.deep_view(),
            file@,
            state_of(*old(dirs), *old(seen)),
            depth as nat,
        ) == Err::<ConfState, RequestView>(request.deep_view()),
    decreases MAX_DEPTH + 1 - depth, 2nat,
{
    if depth > MAX_DEPTH || path::is_listed(seen, file) {
        return Ok(());
    }
    let ghost before = seen.deep_view();
    seen.push(file.to_owned());
    assert(seen.deep_view() =~= before.push(file@));
    match table::find(&t.files, file) {
        None => Err(ConfRequest::File(file.to_owned())),
        Some(i) => {
            assert(t.files.deep_view()[i as int].1 == t.files@[i as int].1.deep_view());
            match &t.files[i].1 {
                None => Ok(()),
                Some(content) => {
                    let chars: Vec<char> = text::chars_of(content.as_str());
                    let lines: Vec<Vec<char>> = text::split_chars(chars.as_slice(), '\n');
                    parse_lines(t, &lines, dirs, seen, depth)
                },
            }
        },
    }
}

/// Reads the lines of a file.
fn parse_lines(
    t: &ConfFiles,
    lines: &Vec<Vec<char>>,
    dirs: &mut Vec<String>,
    seen: &mut Vec<String>,
    depth: usize,
) -> (r: Result<(), ConfRequest>)
    requires
        depth <= MAX_DEPTH,
    ensures
        r is Ok ==> after_lines(
            t.deep_view(),
            lines.deep_view(),
            state_of(*old(dirs), *old(seen)),
            depth as nat,
        ) == Ok::<ConfState, RequestView>(state_of(*final(dirs), *final(seen))),
        r matches Err(request) ==> after_lines(
            t.deep_view(),
            lines.deep_view(),
            state_of(*old(dirs), *old(seen)),
            depth as nat,
        ) == Err::<ConfState, RequestView>(request.deep_view()),
    decreases MAX_DEPTH + 1 - depth, 1nat,
{
    let ghost all = lines.deep_view();
    let ghost start = state_of(*dirs, *seen);
    let mut i: usize = 0;
    assert(all.take(0) =~= Seq::<Seq<char>>::empty());
    while i < lines.len()
        invariant
            i <= lines@.len(),
            depth <= MAX_DEPTH,
            all == lines.deep_view(),
            start == state_of(*old(dirs), *old(seen)),
            after_lines(t.deep_view(), all.take(i as int), start, depth as nat) == Ok::<
                ConfState,
                RequestView,
            >(state_of(*dirs, *seen)),
        decreases lines@.len() - i,
    {
        let ghost now = state_of(*dirs, *seen);
        assert(all.take(i + 1).drop_last() =~= all.take(i as int));
        assert(all[i as int] =~= lines@[i as int]@);
        match read_line(lines[i].as_slice()) {
            Line::Nothing => {},
            Line::Dir(dir) => {
                dirs.push(text::string_of(dir.as_slice()));
                assert(dirs.deep_view() =~= now.dirs.push(dir@));
            },
            Line::Files(pattern) => {
                let files: Vec<String> = match expand_pattern(t, pattern.as_slice()) {
                    Ok(files) => files,
                    Err(request) => {
                        proof {
                            lemma_lines_stop(t.deep_view(), all, start, depth as nat, i + 1);
                        }
                        return Err(request);
                    },
                };
                match parse_files(t, &files, dirs, seen, depth + 1) {
                    Ok(()) => {},
                    Err(request) => {
                        proof {
                            lemma_lines_stop(t.deep_view(), all, start, depth as nat, i + 1);
                        }
                        return Err(request);
                    },
                }
            },
        }
        i += 1;
    }
    assert(all.take(i as int) =~= all);
    Ok(())
}

/// Reads some files.
fn parse_files(
    t: &ConfFiles,
    files: &Vec<String>,
    dirs: &mut Vec<String>,
    seen: &mut Vec<String>,
    depth: usize,
) -> (r: Result<(), ConfRequest>)
    requires
        depth <= MAX_DEPTH + 1,
    ensures
        r is Ok ==> after_files(
            t.deep_view(),
            files.deep_view(),
            state_of(*old(dirs), *old(seen)),
            depth as nat,
        ) == Ok::<ConfState, RequestView>(state_of(*final(dirs), *final(seen))),
        r matches Err(request) ==> after_files(
            t.deep_view(),
            files.deep_view(),
            state_of(*old(dirs), *old(seen)),
            depth as nat,
        ) == Err::<ConfState, RequestView>(request.deep_view()),
    decreases MAX_DEPTH + 1 - depth, 3nat,
{
    let ghost all = files.deep_view();
    let ghost start = state_of(*dirs, *seen);
    let mut i: usize = 0;
    assert(all.take(0) =~= Seq::<Seq<char>>::empty());
    while i < files.len()
        invariant
            i <= files@.len(),
            depth <= MAX_DEPTH + 1,
            all == files.deep_view(),
            start == state_of(*old(dirs), *old(seen)),
            after_files(t.deep_view(), all.take(i as int), start, depth as nat) == Ok::<
                ConfState,
                RequestView,
            >(state_of(*dirs, *seen)),
        decreases files@.len() - i,
    {
        assert(all.take(i + 1).drop_last() =~= all.take(i as int));
        assert(all[i as int] == files@[i as int]@);
        match parse_conf(t, files[i].as_str(), dirs, seen, depth) {
            Ok(()) => {},
            Err(request) => {
                proof {
                    lemma_files_stop(t.deep_view(), all, start, depth as nat, i + 1);
                }
                return Err(request);
            },
        }
        i += 1;
    }
    assert(all.take(i as int) =~= all);
    Ok(())
}

/// What the first lines leave open stays open.
proof fn lemma_lines_stop(t: ConfView, lines: Seq<Seq<char>>, s: ConfState, depth: nat, n: int)
    requires
        depth <= MAX_DEPTH,
        0 <= n <= lines.len(),
        after_lines(t, lines.take(n), s, depth) is Err,
    ensures
        after_lines(t, lines, s, depth) == after_lines(t, lines.take(n), s, depth),
    decreases lines.len() - n,
{
    if n < lines.len() {
        assert(lines.take(n + 1).drop_last() =~= lines.take(n));
        lemma_lines_stop(t, lines, s, depth, n + 1);
    } else {
        assert(lines.take(n) =~= lines);
    }
}

/// What the first files leave open stays open.
proof fn lemma_files_stop(t: ConfView, files: Seq<Seq<char>>, s: ConfState, depth: nat, n: int)
    requires
        0 <= n <= files.len(),
        after_files(t, files.take(n), s, depth) is Err,
    ensures
        after_files(t, files, s, depth) == after_files(t, files.take(n), s, depth),
    decreases files.len() - n,
{
    if n < files.len() {
        assert(files.take(n + 1).drop_last() =~= files.take(n));
        lemma_files_stop(t, files, s, depth, n + 1);
    } else {
        assert(files.take(n) =~= files);
    }
}

/// The directories that the configuration lists, or what has to be known to
/// tell.
pub fn ld_so_conf_dirs(t: &ConfFiles) -> (r: Result<Vec<String>, ConfRequest>)
    ensures
        r matches Ok(dirs) ==> conf_dirs(t.deep_view()) == Ok::<Seq<Seq<char>>, RequestView>(
            dirs.deep_view(),
        ),
        r matches Err(request) ==> conf_dirs(t.deep_view()) == Err::<Seq<Seq<char>>, RequestView>(
            request.deep_view(),
        ),
{
    let mut dirs: Vec<String> = Vec::new();
    let mut seen: Vec<String> = Vec::new();
    assert(dirs.deep_view() =~= Seq::<Seq<char>>::empty());
    assert(seen.deep_view() =~= Seq::<Seq<char>>::empty());
    match parse_conf(t, ROOT, &mut dirs, &mut seen, 0) {
        Ok(()) => Ok(dirs),
        Err(request) => Err(request),
    }
}

// ---------------------------------------------------------------------------
// Laws
// ---------------------------------------------------------------------------

/// A table tells all that another one tells.
pub open spec fn tells_more(more: ConfView, less: ConfView) -> bool {
    &&& forall|p: Seq<char>| #[trigger]
        table::known(less.files, p) is Some ==> table::known(more.files, p) == table::known(less.files, p)
    &&& forall|p: Seq<char>| #[trigger]
        table::known(less.dirs, p) is Some ==> table::known(more.dirs, p) == table::known(less.dirs, p)
}

/// What a request asks for is not in the table.
pub open spec fn is_news(request: RequestView, t: ConfView) -> bool {
    match request {
        RequestView::File(p) => table::known(t.files, p) is None,
        RequestView::Directory(p) => table::known(t.dirs, p) is None,
    }
}

/// What holds of a state that follows another, and of a request.
spec fn follows(t: ConfView, s: ConfState, r: Result<ConfState, RequestView>) -> bool {
    match r {
        Ok(next) => s.seen.is_prefix_of(next.seen) && s.dirs.is_prefix_of(next.dirs) && (path::once_each(
            s.seen,
        ) ==> path::once_each(next.seen)),
        Err(request) => is_news(request, t),
    }
}

proof fn lemma_file(more: ConfView, t: ConfView, file: Seq<char>, s: ConfState, depth: nat)
    requires
        tells_more(more, t),
    ensures
        follows(t, s, after_file(t, file, s, depth)),
        after_file(t, file, s, depth) is Ok ==> after_file(more, file, s, depth) == after_file(
            t,
            file,
            s,
            depth,
        ),
    decreases MAX_DEPTH + 1 - depth, 2nat, 0nat,
{
    if depth <= MAX_DEPTH && !path::listed(s.seen, file) {
        let seen = ConfState { dirs: s.dirs, seen: s.seen.push(file) };
        assert(s.seen.is_prefix_of(seen.seen));
        if path::once_each(s.seen) {
            assert forall|i: int, j: int| 0 <= i < j < seen.seen.len() implies !path::same_path(
                #[trigger] seen.seen[i],
                #[trigger] seen.seen[j],
            ) by {
                if j == s.seen.len() {
                    assert(seen.seen[i] == s.seen[i]);
                }
            }
        }
        match table::known(t.files, file) {
            Some(Some(content)) => {
                lemma_lines(more, t, text::split_on(content, '\n'), seen, depth);
            },
            _ => {},
        }
    }
}

proof fn lemma_lines(more: ConfView, t: ConfView, lines: Seq<Seq<char>>, s: ConfState, depth: nat)
    requires
        tells_more(more, t),
        depth <= MAX_DEPTH,
    ensures
        follows(t, s, after_lines(t, lines, s, depth)),
        after_lines(t, lines, s, depth) is Ok ==> after_lines(more, lines, s, depth)
            == after_lines(t, lines, s, depth),
    decreases MAX_DEPTH + 1 - depth, 1nat, lines.len(),
{
    if lines.len() > 0 {
        lemma_lines(more, t, lines.drop_last(), s, depth);
        match after_lines(t, lines.drop_last(), s, depth) {
            Ok(before) => match conf_line(lines.last()) {
                ConfLine::Files(pattern) => match expansion(t, pattern) {
                    Ok(files) => {
                        lemma_files(more, t, files, before, depth + 1);
                    },
                    Err(_) => {},
                },
                _ => {},
            },
            Err(_) => {},
        }
    }
}

proof fn lemma_files(more: ConfView, t: ConfView, files: Seq<Seq<char>>, s: ConfState, depth: nat)
    requires
        tells_more(more, t),
        depth <= MAX_DEPTH + 1,
    ensures
        follows(t, s, after_files(t, files, s, depth)),
        after_files(t, files, s, depth) is Ok ==> after_files(more, files, s, depth)
            == after_files(t, files, s, depth),
    decreases MAX_DEPTH + 1 - depth, 3nat, files.len(),
{
    if files.len() > 0 {
        lemma_files(more, t, files.drop_last(), s, depth);
        match after_files(t, files.drop_last(), s, depth) {
            Ok(before) => {
                lemma_file(more, t, files.last(), before, depth);
            },
            Err(_) => {},
        }
    }
}

/// An answer stands: a table that tells more gives the same directories.
pub proof fn answers_stand(more: ConfView, less: ConfView)
    requires
        tells_more(more, less),
        conf_dirs(less) is Ok,
    ensures
        conf_dirs(more) == conf_dirs(less),
{
    lemma_file(more, less, ROOT@, ConfState { dirs: Seq::empty(), seen: Seq::empty() }, 0);
}

/// What is asked for is always something that the table does not tell.
pub proof fn requests_are_news(t: ConfView)
    ensures
        conf_dirs(t) matches Err(request) ==> is_news(request, t),
{
    lemma_file(t, t, ROOT@, ConfState { dirs: Seq::empty(), seen: Seq::empty() }, 0);
}

/// No configuration file is read twice, however the files name each other.
pub proof fn files_are_read_once(t: ConfView)
    ensures
        after_file(t, ROOT@, ConfState { dirs: Seq::empty(), seen: Seq::empty() }, 0) matches Ok(s)
            ==> path::once_each(s.seen),
{
    lemma_file(t, t, ROOT@, ConfState { dirs: Seq::empty(), seen: Seq::empty() }, 0);
}

} // verus!
