//! What the user, the distribution and the loader's configuration say.

use vstd::prelude::*;
use super::words;
use crate::cli;
use crate::cli::{ArgsState, OptionsView};
use crate::conf;
use crate::conf::{ConfLine, ConfState, ConfView, RequestView};
use crate::distro;
use crate::distro::Family;
use crate::order;
use crate::path;
use crate::table;
use crate::text;

verus! {

// ---------------------------------------------------------------------------
// Tables
// ---------------------------------------------------------------------------

/// The first entry of a name counts.
pub proof fn the_first_entry_of_a_name_counts<V>(t: Seq<(Seq<char>, V)>, name: Seq<char>, i: int)
    ensures
        0 <= i < t.len() && t[i].0 == name && (forall|k: int|
            0 <= k < i ==> (#[trigger] t[k]).0 != name) ==> table::known(t, name) == Some(t[i].1),
        (forall|k: int| 0 <= k < t.len() ==> (#[trigger] t[k]).0 != name) ==> table::known(
            t,
            name,
        ) is None,
    decreases t.len(),
{
    lemma_position(t, name, i);
}

proof fn lemma_position<V>(t: Seq<(Seq<char>, V)>, name: Seq<char>, i: int)
    ensures
        0 <= i < t.len() && t[i].0 == name && (forall|k: int|
            0 <= k < i ==> (#[trigger] t[k]).0 != name) ==> table::position(t, name) == Some(i),
        (forall|k: int| 0 <= k < t.len() ==> (#[trigger] t[k]).0 != name) ==> table::position(
            t,
            name,
        ) is None,
    decreases t.len(),
{
    if t.len() > 0 {
        let front = t.drop_last();
        lemma_position(front, name, i);
        assert forall|k: int| 0 <= k < front.len() implies #[trigger] front[k] == t[k] by {}
    }
}

// ---------------------------------------------------------------------------
// Arguments
// ---------------------------------------------------------------------------

proof fn lemma_literals()
    ensures
        "--"@.len() == 2 && "--"@[0] == '-' && "--"@[1] == '-',
        "-h"@.len() == 2 && "-h"@[0] == '-' && "-h"@[1] == 'h',
        "-V"@.len() == 2 && "-V"@[0] == '-' && "-V"@[1] == 'V',
        "-v"@.len() == 2 && "-v"@[0] == '-' && "-v"@[1] == 'v',
        "--help"@.len() == 6 && "--help"@[2] == 'h',
        "--version"@.len() == 9 && "--version"@[5] == 's',
        "--verbose"@.len() == 9 && "--verbose"@[5] == 'b',
        "--no-color"@.len() == 10 && "--ascii"@.len() == 7,
        "--help"@[0] == '-' && "--version"@[0] == '-' && "--verbose"@[0] == '-',
        "--no-color"@[0] == '-' && "--ascii"@[0] == '-',
        "-"@.len() == 1 && "-"@[0] == '-',
{
    reveal_strlit("-");
    reveal_strlit("--");
    reveal_strlit("-h");
    reveal_strlit("--help");
    reveal_strlit("-V");
    reveal_strlit("--version");
    reveal_strlit("-v");
    reveal_strlit("--verbose");
    reveal_strlit("--no-color");
    reveal_strlit("--ascii");
}

proof fn lemma_argument(args: Seq<Seq<char>>, arg: Seq<char>)
    ensures
        cli::parsed_args(args.push(arg)) == (match cli::parsed_args(args) {
            Ok(state) => cli::with_arg(state, arg),
            Err(error) => Err(error),
        }),
{
    assert(args.push(arg).drop_last() =~= args);
}

/// Without arguments nothing is set.
pub proof fn nothing_is_set_at_first()
    ensures
        cli::parsed_args(Seq::empty()) matches Ok(state) && !state.positional_only
            && state.options.target is None && !state.options.verbose && !state.options.no_color
            && !state.options.ascii && !state.options.show_help && !state.options.show_version,
{
}

/// Every option sets what it names and nothing else, in both of its spellings.
pub proof fn options_set_what_they_name(args: Seq<Seq<char>>, before: ArgsState)
    requires
        cli::parsed_args(args) == Ok::<ArgsState, Seq<char>>(before),
        !before.positional_only,
    ensures
        ({
            let o = before.options;
            let help = Ok::<ArgsState, Seq<char>>(
                ArgsState {
                    options: OptionsView { show_help: true, ..o },
                    positional_only: false,
                },
            );
            let version = Ok::<ArgsState, Seq<char>>(
                ArgsState {
                    options: OptionsView { show_version: true, ..o },
                    positional_only: false,
                },
            );
            let verbose = Ok::<ArgsState, Seq<char>>(
                ArgsState { options: OptionsView { verbose: true, ..o }, positional_only: false },
            );
            let plain = Ok::<ArgsState, Seq<char>>(
                ArgsState { options: OptionsView { no_color: true, ..o }, positional_only: false },
            );
            let ascii = Ok::<ArgsState, Seq<char>>(
                ArgsState { options: OptionsView { ascii: true, ..o }, positional_only: false },
            );
            let ended = Ok::<ArgsState, Seq<char>>(
                ArgsState { options: o, positional_only: true },
            );
            &&& cli::parsed_args(args.push("-h"@)) == help
            &&& cli::parsed_args(args.push("--help"@)) == help
            &&& cli::parsed_args(args.push("-V"@)) == version
            &&& cli::parsed_args(args.push("--version"@)) == version
            &&& cli::parsed_args(args.push("-v"@)) == verbose
            &&& cli::parsed_args(args.push("--verbose"@)) == verbose
            &&& cli::parsed_args(args.push("--no-color"@)) == plain
            &&& cli::parsed_args(args.push("--ascii"@)) == ascii
            &&& cli::parsed_args(args.push("--"@)) == ended
        }),
{
    lemma_literals();
    lemma_argument(args, "-h"@);
    lemma_argument(args, "--help"@);
    lemma_argument(args, "-V"@);
    lemma_argument(args, "--version"@);
    lemma_argument(args, "-v"@);
    lemma_argument(args, "--verbose"@);
    lemma_argument(args, "--no-color"@);
    lemma_argument(args, "--ascii"@);
    lemma_argument(args, "--"@);
}

/// What is no option names the target: what does not begin with a dash, a dash
/// alone, and anything behind `--`. A second target is refused by name, and so
/// is an option that is not known.
pub proof fn the_target_is_what_is_no_option(
    args: Seq<Seq<char>>,
    before: ArgsState,
    arg: Seq<char>,
)
    requires
        cli::parsed_args(args) == Ok::<ArgsState, Seq<char>>(before),
    ensures
        ({
            let named = before.positional_only || arg.len() == 0 || arg[0] != '-' || arg.len() == 1;
            let after = cli::parsed_args(args.push(arg));
            &&& named && before.options.target is None ==> after == Ok::<ArgsState, Seq<char>>(
                ArgsState {
                    options: OptionsView { target: Some(arg), ..before.options },
                    positional_only: before.positional_only,
                },
            )
            &&& named && before.options.target is Some ==> after == Err::<ArgsState, Seq<char>>(
                "unexpected extra argument '"@ + arg + "'"@,
            )
            &&& !named && !cli::is_option(arg) && arg != "--"@ ==> after == Err::<
                ArgsState,
                Seq<char>,
            >("unknown option '"@ + arg + "'"@)
        }),
{
    lemma_literals();
    lemma_argument(args, arg);
    words::standing_is_by_characters(arg, "-"@, 0);
    if arg.len() > 0 && arg[0] == '-' {
        assert forall|k: int| 0 <= k < "-"@.len() implies arg[0 + k] == #[trigger] "-"@[k] by {}
        if arg.len() == 1 {
            assert(arg =~= "-"@);
        }
    }
}

/// The first error stands, whatever follows.
pub proof fn the_first_error_stands(args: Seq<Seq<char>>, more: Seq<Seq<char>>)
    requires
        cli::parsed_args(args) is Err,
    ensures
        cli::parsed_args(args + more) == cli::parsed_args(args),
    decreases more.len(),
{
    if more.len() == 0 {
        assert(args + more =~= args);
    } else {
        the_first_error_stands(args, more.drop_last());
        assert((args + more).drop_last() =~= args + more.drop_last());
    }
}

// ---------------------------------------------------------------------------
// The distribution
// ---------------------------------------------------------------------------

/// A line that gives a value has its name before the first `=` and its value
/// behind it, without the white space around each and the quotes around the
/// value. A comment gives none.
pub proof fn lines_give_values(line: Seq<char>, key: Seq<char>, value: Seq<char>)
    ensures
        text::trimmed(line).len() > 0 && text::trimmed(line)[0] == '#' ==> distro::field_of(
            line,
        ) is None,
        !text::trimmed(line).contains('=') ==> distro::field_of(line) is None,
        text::trimmed(line) == key.push('=') + value && !key.contains('=') && (key.len() > 0
            ==> key[0] != '#') ==> distro::field_of(line) == Some(
            (text::trimmed(key), text::stripped(text::stripped(text::trimmed(value), '"'), '\'')),
        ),
{
    let l = text::trimmed(line);
    reveal_strlit("#");
    reveal_strlit("=");
    assert("#"@ =~= seq!['#']);
    assert("="@ =~= seq!['=']);
    words::standing_is_by_characters(l, "#"@, 0);
    words::parting_is_at_the_first_place(l, "="@);
    if l.len() > 0 && l[0] == '#' {
        assert forall|k: int| 0 <= k < "#"@.len() implies l[0 + k] == #[trigger] "#"@[k] by {}
    }
    if !l.contains('=') && text::contains_text(l, "="@) {
        let i = choose|i: int| text::occurs_at(l, "="@, i);
        words::standing_is_by_characters(l, "="@, i);
        assert("="@[0] == '=');
        assert(l[i + 0] == '=');
    }
    if l == key.push('=') + value && !key.contains('=') && (key.len() > 0 ==> key[0] != '#') {
        assert(l[key.len() as int] == '=');
        words::standing_is_by_characters(l, "="@, key.len() as int);
        assert(text::occurs_at(l, "="@, key.len() as int));
        match text::split_once(l, "="@) {
            Some((a, b)) => {
                assert(a.len() == key.len()) by {
                    if a.len() < key.len() {
                        assert(l[a.len() as int] == '=') by {
                            assert((a + "="@ + b)[a.len() as int] == "="@[0]);
                        }
                        assert(key[a.len() as int] == '=');
                        assert(key.contains('='));
                    }
                    if key.len() < a.len() {
                        assert(!text::occurs_at(l, "="@, key.len() as int));
                    }
                }
                assert(a =~= key) by {
                    assert((a + "="@ + b).take(key.len() as int) =~= a);
                    assert((key.push('=') + value).take(key.len() as int) =~= key);
                }
                assert(b =~= value) by {
                    assert((a + "="@ + b).skip(key.len() as int + 1) =~= b);
                    assert((key.push('=') + value).skip(key.len() as int + 1) =~= value);
                }
            },
            None => {},
        }
        if text::starts_with(l, "#"@) {
            assert("#"@[0] == '#');
            assert(l[0 + 0int] == '#');
            if key.len() > 0 {
                assert(l[0] == key[0]);
            } else {
                assert(l[0] == '=');
            }
        }
    }
}

/// Every line that gives a value gives one, in their order.
pub proof fn every_value_is_read(lines: Seq<Seq<char>>)
    ensures
        distro::fields_of(lines) == lines.filter_map(|line: Seq<char>| distro::field_of(line)),
    decreases lines.len(),
{
    let f = |line: Seq<char>| distro::field_of(line);
    if lines.len() == 0 {
        assert(lines.filter_map(f) =~= Seq::empty());
    } else {
        let front = lines.drop_last();
        every_value_is_read(front);
        match f(lines.last()) {
            Some(field) => {
                assert(distro::fields_of(front).push(field) =~= distro::fields_of(front)
                    + seq![field]);
            },
            None => {},
        }
    }
}

/// The name holds one of these words.
pub open spec fn is_called_like(id: Seq<char>, id_like: Seq<char>, word: Seq<char>) -> bool {
    text::contains_text(text::lowered(id + " "@ + id_like), word)
}

/// The family is told by the first of its words that the names hold, in lower
/// case: those of Debian, Fedora, SUSE, Alpine, Gentoo and Arch, in this order.
pub proof fn families_are_told_by_their_words(id: Seq<char>, id_like: Seq<char>)
    ensures
        ({
            let debian = is_called_like(id, id_like, "debian"@) || is_called_like(
                id,
                id_like,
                "ubuntu"@,
            );
            let fedora = is_called_like(id, id_like, "fedora"@) || is_called_like(
                id,
                id_like,
                "rhel"@,
            ) || is_called_like(id, id_like, "centos"@);
            let suse = is_called_like(id, id_like, "suse"@);
            let alpine = is_called_like(id, id_like, "alpine"@);
            let gentoo = is_called_like(id, id_like, "gentoo"@);
            let arch = is_called_like(id, id_like, "arch"@);
            let family = distro::kin(id, id_like);
            &&& family == Family::Debian <==> debian
            &&& family == Family::Fedora <==> fedora && !debian
            &&& family == Family::Suse <==> suse && !debian && !fedora
            &&& family == Family::Alpine <==> alpine && !debian && !fedora && !suse
            &&& family == Family::Gentoo <==> gentoo && !debian && !fedora && !suse && !alpine
            &&& family == Family::Arch <==> arch && !debian && !fedora && !suse && !alpine
                && !gentoo
            &&& family == Family::Unknown <==> !debian && !fedora && !suse && !alpine && !gentoo
                && !arch
        }),
{
}

/// What the file says of the system: its `ID`, its name, which is the
/// `PRETTY_NAME`, or else the `ID`, or else that of any system, and its family
/// by `ID` and `ID_LIKE`.
pub proof fn the_system_is_told_by_its_values(content: Seq<char>)
    ensures
        ({
            let fields = distro::fields_of(text::split_on(content, '\n'));
            let value = |key: Seq<char>|
                match table::known(fields, key) {
                    Some(v) => v,
                    None => Seq::<char>::empty(),
                };
            let system = distro::detected(Some(content));
            &&& system.id == value("ID"@)
            &&& system.family == distro::kin(value("ID"@), value("ID_LIKE"@))
            &&& value("PRETTY_NAME"@).len() > 0 ==> system.name == value("PRETTY_NAME"@)
            &&& value("PRETTY_NAME"@).len() == 0 && value("ID"@).len() > 0 ==> system.name == value(
                "ID"@,
            )
            &&& value("PRETTY_NAME"@).len() == 0 && value("ID"@).len() == 0 ==> system.name
                == "this system"@
        }),
{
}

/// A system that says nothing is any system.
pub proof fn an_unknown_system_is_any()
    ensures
        distro::detected(None) == distro::system_of(Seq::empty()),
        distro::detected(None).id.len() == 0 && distro::detected(None).name == "this system"@,
{
}

// ---------------------------------------------------------------------------
// The loader's configuration
// ---------------------------------------------------------------------------

/// What stands behind `#` is a comment, and white space around a line means
/// nothing.
pub proof fn comments_are_left_out(a: Seq<char>, b: Seq<char>)
    requires
        !a.contains('#'),
    ensures
        conf::conf_line(a + seq!['#'] + b) == conf::conf_line(a),
        text::trimmed(a).len() == 0 ==> conf::conf_line(a) == ConfLine::Nothing,
{
    let all = a + seq!['#'] + b;
    text::lemma_first_of(a, '#');
    text::lemma_first_of(all, '#');
    let k = text::first_of(a, '#');
    if k < a.len() {
        assert(a.contains(a[k]));
    }
    assert(a.take(k) =~= a);
    let n = text::first_of(all, '#');
    assert(n == a.len()) by {
        if n < a.len() {
            assert(all[n] == a[n]);
            assert(a.contains(a[n]));
        }
        assert(all[a.len() as int] == '#');
    }
    assert(all.take(n) =~= a);
    reveal_strlit("include");
    words::standing_is_by_characters(text::trimmed(a), "include"@, 0);
}

/// A line names more files by a pattern behind its first word, or a directory by
/// an absolute path; any other says nothing.
pub proof fn lines_name_files_and_directories(line: Seq<char>, pattern: Seq<char>)
    requires
        !line.contains('#'),
    ensures
        ({
            let l = text::trimmed(line);
            &&& l == "include"@ + pattern ==> conf::conf_line(line) == ConfLine::Files(
                text::trimmed(pattern),
            )
            &&& l.len() > 0 && l[0] == '/' ==> conf::conf_line(line) == ConfLine::Dir(l)
            &&& l.len() == 0 || (l[0] != '/' && l[0] != 'i') ==> conf::conf_line(line)
                == ConfLine::Nothing
        }),
{
    let l = text::trimmed(line);
    text::lemma_first_of(line, '#');
    let k = text::first_of(line, '#');
    if k < line.len() {
        assert(line.contains(line[k]));
    }
    assert(line.take(k) =~= line);
    reveal_strlit("include");
    words::standing_is_by_characters(l, "include"@, 0);
    assert("include"@[0] == 'i' && "include"@.len() == 7);
    if l == "include"@ + pattern {
        words::sums_hold_their_parts(Seq::empty(), "include"@, pattern);
        assert(l.skip(7) =~= pattern);
    }
    if text::starts_with(l, "include"@) {
        assert(l[0 + 0int] == "include"@[0]);
    }
}

/// A name fits a pattern where it begins with what stands before the `*` and
/// ends with what stands behind it; without a `*`, where it begins with the
/// pattern.
pub proof fn names_fit_patterns(prefix: Seq<char>, suffix: Seq<char>, name: Seq<char>)
    requires
        !prefix.contains('*'),
    ensures
        conf::fits(prefix + seq!['*'] + suffix, name) <==> text::starts_with(name, prefix)
            && text::ends_with(name, suffix),
        conf::fits(prefix, name) <==> text::starts_with(name, prefix),
{
    let all = prefix + seq!['*'] + suffix;
    reveal_strlit("*");
    assert("*"@ =~= seq!['*']);
    words::parting_is_at_the_first_place(all, "*"@);
    words::parting_is_at_the_first_place(prefix, "*"@);
    words::sums_hold_their_parts(prefix, "*"@, suffix);
    let at = prefix.len() as int;
    assert(all.subrange(at, at + 1) =~= "*"@);
    assert(text::occurs_at(all, "*"@, at));
    match text::split_once(all, "*"@) {
        Some((a, b)) => {
            let n = a.len() as int;
            assert((a + "*"@ + b)[n] == '*');
            assert(n == at) by {
                if n < at {
                    assert(all[n] == prefix[n]);
                    assert(prefix.contains('*'));
                }
                if at < n {
                    assert(!text::occurs_at(all, "*"@, at));
                }
            }
            assert(a =~= prefix) by {
                assert((a + "*"@ + b).take(at) =~= a);
                assert(all.take(at) =~= prefix);
            }
            assert(b =~= suffix) by {
                assert((a + "*"@ + b).skip(at + 1) =~= b);
                assert(all.skip(at + 1) =~= suffix);
            }
        },
        None => {},
    }
    if text::contains_text(prefix, "*"@) {
        let i = choose|i: int| text::occurs_at(prefix, "*"@, i);
        words::standing_is_by_characters(prefix, "*"@, i);
        assert("*"@[0] == '*');
        assert(prefix[i + 0] == '*');
    }
}

/// Every name that fits is taken, in their order.
pub proof fn every_fitting_name_is_taken(pattern: Seq<char>, names: Seq<Seq<char>>)
    ensures
        conf::fitting(pattern, names) == names.filter(|name: Seq<char>| conf::fits(pattern, name)),
    decreases names.len(),
{
    reveal(Seq::filter);
    if names.len() > 0 {
        every_fitting_name_is_taken(pattern, names.drop_last());
    }
}

/// The names of a directory come sorted, each once and none left out, and each
/// stands in the directory.
pub proof fn names_come_sorted(dir: Seq<char>, names: Seq<Seq<char>>)
    ensures
        ({
            let files = conf::sorted_in(dir, names);
            let order = order::stable_order(conf::name_keys(names));
            &&& files.len() == names.len() && order.len() == names.len() && order.no_duplicates()
            &&& forall|i: int|
                0 <= i < files.len() ==> 0 <= #[trigger] order[i] < names.len() && files[i]
                    == path::join(dir, names[order[i]])
            &&& forall|i: int, j: int|
                0 <= i < j < files.len() ==> !text::text_less(
                    names[#[trigger] order[j]],
                    names[#[trigger] order[i]],
                )
        }),
{
    let keys = conf::name_keys(names);
    let order = order::stable_order(keys);
    order::order_is_a_permutation(keys);
    order::order_is_sorted(keys);
    assert forall|i: int, j: int| 0 <= i < j < order.len() implies !text::text_less(
        names[#[trigger] order[j]],
        names[#[trigger] order[i]],
    ) by {
        let a = keys[order[i]];
        let b = keys[order[j]];
        assert(a.0 == names[order[i]] && b.0 == names[order[j]]);
        order::pair_order_is_total(a, b, a);
        order::pair_order_is_total(b, a, b);
        order::pair_order_is_total(a, a, a);
        order::pair_order_is_total(b, b, b);
    }
}

/// A pattern without `*` is a file; one with it are the files of its directory
/// that fit, which are asked for where they are not known.
pub proof fn patterns_are_expanded(t: ConfView, pattern: Seq<char>, dir: Seq<char>, file: Seq<char>)
    ensures
        !pattern.contains('*') ==> conf::expansion(t, pattern) == Ok::<Seq<Seq<char>>, RequestView>(
            seq![pattern],
        ),
        pattern.contains('*') && path::parent(pattern) == Some(dir) && path::file_name(pattern)
            == Some(file) ==> {
            &&& table::known(t.dirs, dir) is None ==> conf::expansion(t, pattern) == Err::<
                Seq<Seq<char>>,
                RequestView,
            >(RequestView::Directory(dir))
            &&& table::known(t.dirs, dir) == Some(None::<Seq<Seq<char>>>) ==> conf::expansion(
                t,
                pattern,
            ) == Ok::<Seq<Seq<char>>, RequestView>(Seq::empty())
            &&& table::known(t.dirs, dir) matches Some(Some(names)) ==> conf::expansion(t, pattern)
                == Ok::<Seq<Seq<char>>, RequestView>(
                conf::sorted_in(
                    dir,
                    names.filter(|name: Seq<char>| conf::fits(file, name)),
                ),
            )
        },
{
    match table::known(t.dirs, dir) {
        Some(Some(names)) => every_fitting_name_is_taken(file, names),
        _ => {},
    }
}

/// Files are read no deeper than eight below the first one, and each once; one
/// that is not known is asked for, and one that cannot be read says nothing.
pub proof fn files_are_read_where_they_are_new(
    t: ConfView,
    file: Seq<char>,
    s: ConfState,
    depth: nat,
)
    ensures
        ({
            let read = conf::after_file(t, file, s, depth);
            let passed = depth > 8 || exists|i: int|
                0 <= i < s.seen.len() && path::same_path(#[trigger] s.seen[i], file);
            let seen = ConfState { dirs: s.dirs, seen: s.seen.push(file) };
            &&& passed ==> read == Ok::<ConfState, RequestView>(s)
            &&& !passed && table::known(t.files, file) is None ==> read == Err::<
                ConfState,
                RequestView,
            >(RequestView::File(file))
            &&& !passed && table::known(t.files, file) == Some(None::<Seq<char>>) ==> read == Ok::<
                ConfState,
                RequestView,
            >(seen)
            &&& !passed ==> (table::known(t.files, file) matches Some(Some(content)) ==> read
                == conf::after_lines(t, text::split_on(content, '\n'), seen, depth))
        }),
{
}

/// The lines are taken in their order: a directory is added behind those that
/// were named before, and the files of a pattern are read, one step deeper, in
/// its place.
pub proof fn lines_are_taken_in_order(
    t: ConfView,
    lines: Seq<Seq<char>>,
    line: Seq<char>,
    s: ConfState,
    depth: nat,
)
    requires
        depth <= 8,
    ensures
        conf::after_lines(t, Seq::empty(), s, depth) == Ok::<ConfState, RequestView>(s),
        ({
            let before = conf::after_lines(t, lines, s, depth);
            let after = conf::after_lines(t, lines.push(line), s, depth);
            &&& before is Err ==> after == before
            &&& before matches Ok(b) ==> {
                &&& conf::conf_line(line) == ConfLine::Nothing ==> after == before
                &&& conf::conf_line(line) matches ConfLine::Dir(dir) ==> (after matches Ok(r)
                    && r.dirs == b.dirs.push(dir) && r.seen == b.seen)
                &&& conf::conf_line(line) matches ConfLine::Files(pattern) ==> (
                match conf::expansion(t, pattern) {
                    Err(request) => after == Err::<ConfState, RequestView>(request),
                    Ok(files) => after == conf::after_files(t, files, b, depth + 1),
                })
            }
        }),
{
    assert(lines.push(line).drop_last() =~= lines);
}

/// The files are read in their order.
pub proof fn files_are_taken_in_order(
    t: ConfView,
    files: Seq<Seq<char>>,
    file: Seq<char>,
    s: ConfState,
    depth: nat,
)
    ensures
        conf::after_files(t, Seq::empty(), s, depth) == Ok::<ConfState, RequestView>(s),
        ({
            let before = conf::after_files(t, files, s, depth);
            let after = conf::after_files(t, files.push(file), s, depth);
            &&& before is Err ==> after == before
            &&& before matches Ok(b) ==> after == conf::after_file(t, file, b, depth)
        }),
{
    assert(files.push(file).drop_last() =~= files);
}

/// Reading begins at `/etc/ld.so.conf`, with nothing read and nothing named.
pub proof fn reading_begins_at_the_root(t: ConfView)
    ensures
        ({
            let nothing = ConfState { dirs: Seq::empty(), seen: Seq::empty() };
            match conf::after_file(t, "/etc/ld.so.conf"@, nothing, 0) {
                Ok(s) => conf::conf_dirs(t) == Ok::<Seq<Seq<char>>, RequestView>(s.dirs),
                Err(request) => conf::conf_dirs(t) == Err::<Seq<Seq<char>>, RequestView>(request),
            }
        }),
{
}

/// A line that names a directory, as far as it does.
pub open spec fn directory_named(line: Seq<char>) -> Option<Seq<char>> {
    match conf::conf_line(line) {
        ConfLine::Dir(dir) => Some(dir),
        _ => None,
    }
}

proof fn lemma_plain_lines(t: ConfView, lines: Seq<Seq<char>>, s: ConfState)
    requires
        forall|i: int|
            0 <= i < lines.len() ==> !(conf::conf_line(#[trigger] lines[i]) is Files),
    ensures
        conf::after_lines(t, lines, s, 0) == Ok::<ConfState, RequestView>(
            ConfState {
                dirs: s.dirs + lines.filter_map(|line: Seq<char>| directory_named(line)),
                seen: s.seen,
            },
        ),
    decreases lines.len(),
{
    let f = |line: Seq<char>| directory_named(line);
    if lines.len() == 0 {
        assert(s.dirs + lines.filter_map(f) =~= s.dirs);
    } else {
        let front = lines.drop_last();
        assert forall|i: int| 0 <= i < front.len() implies !(conf::conf_line(
            #[trigger] front[i],
        ) is Files) by {
            assert(front[i] == lines[i]);
        }
        lemma_plain_lines(t, front, s);
        assert(!(conf::conf_line(lines[lines.len() - 1]) is Files));
        match f(lines.last()) {
            Some(dir) => {
                assert((s.dirs + front.filter_map(f)).push(dir) =~= s.dirs + (front.filter_map(f)
                    + seq![dir]));
            },
            None => {},
        }
    }
}

/// A configuration that leads to no other file gives every directory that it
/// names, in their order.
pub proof fn every_configured_directory_is_given(t: ConfView, content: Seq<char>)
    requires
        table::known(t.files, "/etc/ld.so.conf"@) == Some(Some(content)),
        forall|i: int|
            0 <= i < text::split_on(content, '\n').len() ==> !(conf::conf_line(
                #[trigger] text::split_on(content, '\n')[i],
            ) is Files),
    ensures
        conf::conf_dirs(t) == Ok::<Seq<Seq<char>>, RequestView>(
            text::split_on(content, '\n').filter_map(|line: Seq<char>| directory_named(line)),
        ),
{
    let lines = text::split_on(content, '\n');
    let none = Seq::<Seq<char>>::empty();
    let seen = ConfState { dirs: none, seen: none.push("/etc/ld.so.conf"@) };
    lemma_plain_lines(t, lines, seen);
    assert(!path::listed(none, "/etc/ld.so.conf"@));
    assert(none + lines.filter_map(|line: Seq<char>| directory_named(line)) =~= lines.filter_map(
        |line: Seq<char>| directory_named(line),
    ));
}

// ---------------------------------------------------------------------------
// Paths
// ---------------------------------------------------------------------------

/// A name that can stand between two slashes.
pub open spec fn is_component(name: Seq<char>) -> bool {
    name.len() > 0 && !name.contains('/') && name != "."@
}

proof fn lemma_components(pieces: Seq<Seq<char>>)
    requires
        forall|i: int| 0 <= i < pieces.len() ==> is_component(#[trigger] pieces[i]),
    ensures
        path::components_of(pieces) == pieces,
        path::components_of(seq![Seq::<char>::empty()] + pieces) == pieces,
    decreases pieces.len(),
{
    let none = Seq::<char>::empty();
    if pieces.len() == 0 {
        assert(pieces =~= Seq::empty());
        assert(seq![none] + pieces =~= seq![none]);
        assert(seq![none].drop_last() =~= Seq::<Seq<char>>::empty());
        assert(path::components_of(Seq::empty()) =~= Seq::<Seq<char>>::empty());
    } else {
        let front = pieces.drop_last();
        assert forall|i: int| 0 <= i < front.len() implies is_component(#[trigger] front[i]) by {
            assert(front[i] == pieces[i]);
        }
        lemma_components(front);
        assert(is_component(pieces[pieces.len() - 1]));
        assert(front.push(pieces.last()) =~= pieces);
        assert((seq![none] + pieces).drop_last() =~= seq![none] + front);
        assert((seq![none] + pieces).last() == pieces.last());
    }
}

/// The names of a path come out again, with and without a slash in front.
pub proof fn the_names_of_a_path_come_out(names: Seq<Seq<char>>)
    requires
        names.len() > 0,
        forall|i: int| 0 <= i < names.len() ==> is_component(#[trigger] names[i]),
    ensures
        path::components(words::joined_by(names, '/')) == names,
        path::components(words::joined_by(seq![Seq::<char>::empty()] + names, '/')) == names,
{
    let none = Seq::<char>::empty();
    let all = seq![none] + names;
    words::pieces_come_out_again(names, '/');
    assert forall|i: int| 0 <= i < all.len() implies !(#[trigger] all[i]).contains('/') by {
        if i > 0 {
            assert(all[i] == names[i - 1]);
        }
    }
    words::pieces_come_out_again(all, '/');
    lemma_components(names);
}

/// Empty names, and `.` behind the first, are left out.
pub proof fn empty_names_are_left_out(pieces: Seq<Seq<char>>, piece: Seq<char>)
    ensures
        path::components_of(pieces.push(Seq::empty())) == path::components_of(pieces),
        pieces.len() > 0 ==> path::components_of(pieces.push("."@)) == path::components_of(pieces),
        piece.len() > 0 && piece != "."@ ==> path::components_of(pieces.push(piece))
            == path::components_of(pieces).push(piece),
        path::components_of(seq!["."@]) == seq!["."@],
{
    reveal_strlit(".");
    assert(pieces.push(Seq::empty()).drop_last() =~= pieces);
    assert(pieces.push("."@).drop_last() =~= pieces);
    assert(pieces.push(piece).drop_last() =~= pieces);
    assert(seq!["."@].drop_last() =~= Seq::<Seq<char>>::empty());
    assert(path::components_of(Seq::empty()) =~= Seq::<Seq<char>>::empty());
    assert(Seq::<Seq<char>>::empty().push("."@) =~= seq!["."@]);
}

/// Two paths are the same where both are absolute or neither is and their names
/// are the same.
pub proof fn paths_are_the_same_by_their_names(a: Seq<char>, b: Seq<char>)
    ensures
        path::same_path(a, b) <==> (a.len() > 0 && a[0] == '/') == (b.len() > 0 && b[0] == '/')
            && path::components(a) == path::components(b),
        path::same_path(a, a),
        path::same_path(a, b) == path::same_path(b, a),
{
}

} // verus!
