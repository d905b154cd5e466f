//! Command line parsing.
//!
//! Hand-rolled to keep the tool dependency-free. The surface is deliberately
//! small: one target, a couple of output switches.

use vstd::prelude::*;
use crate::text;
use crate::VERSION;

verus! {

/// Parsed command line.
#[derive(Debug, Clone)]
pub struct Options {
    pub target: Option<String>,
    pub verbose: bool,
    pub no_color: bool,
    pub ascii: bool,
    pub show_help: bool,
    pub show_version: bool,
}

/// What [`Options`] hold.
pub struct OptionsView {
    pub target: Option<Seq<char>>,
    pub verbose: bool,
    pub no_color: bool,
    pub ascii: bool,
    pub show_help: bool,
    pub show_version: bool,
}

impl OptionsView {
    /// Nothing given.
    pub open spec fn none() -> OptionsView {
        OptionsView {
            target: None,
            verbose: false,
            no_color: false,
            ascii: false,
            show_help: false,
            show_version: false,
        }
    }
}

impl DeepView for Options {
    type V = OptionsView;

    open spec fn deep_view(&self) -> OptionsView {
        OptionsView {
            target: self.target.deep_view(),
            verbose: self.verbose,
            no_color: self.no_color,
            ascii: self.ascii,
            show_help: self.show_help,
            show_version: self.show_version,
        }
    }
}

impl Default for Options {
    fn default() -> (r: Self)
        ensures
            r.deep_view() == OptionsView::none(),
    {
        Options {
            target: None,
            verbose: false,
            no_color: false,
            ascii: false,
            show_help: false,
            show_version: false,
        }
    }
}

/// Arguments read so far: the options, and whether all that follow are targets.
pub struct ArgsState {
    pub options: OptionsView,
    pub positional_only: bool,
}

/// With a target more, of which there may be one.
pub open spec fn with_target(state: ArgsState, value: Seq<char>) -> Result<ArgsState, Seq<char>> {
    if state.options.target is Some {
        Err("unexpected extra argument '"@ + value + "'"@)
    } else {
        Ok(
            ArgsState {
                options: OptionsView { target: Some(value), ..state.options },
                positional_only: state.positional_only,
            },
        )
    }
}

/// With other options.
pub open spec fn with_options(state: ArgsState, options: OptionsView) -> Result<
    ArgsState,
    Seq<char>,
> {
    Ok(ArgsState { options, positional_only: state.positional_only })
}

/// With an argument more.
pub open spec fn with_arg(state: ArgsState, arg: Seq<char>) -> Result<ArgsState, Seq<char>> {
    if state.positional_only {
        with_target(state, arg)
    } else if arg == "--"@ {
        Ok(ArgsState { options: state.options, positional_only: true })
    } else if arg == "-h"@ || arg == "--help"@ {
        with_options(state, OptionsView { show_help: true, ..state.options })
    } else if arg == "-V"@ || arg == "--version"@ {
        with_options(state, OptionsView { show_version: true, ..state.options })
    } else if arg == "-v"@ || arg == "--verbose"@ {
        with_options(state, OptionsView { verbose: true, ..state.options })
    } else if arg == "--no-color"@ {
        with_options(state, OptionsView { no_color: true, ..state.options })
    } else if arg == "--ascii"@ {
        with_options(state, OptionsView { ascii: true, ..state.options })
    } else if text::starts_with(arg, "-"@) && arg != "-"@ {
        Err("unknown option '"@ + arg + "'"@)
    } else {
        with_target(state, arg)
    }
}

/// What arguments say, or what is wrong with the first that is wrong.
pub open spec fn parsed_args(args: Seq<Seq<char>>) -> Result<ArgsState, Seq<char>>
    decreases args.len(),
{
    if args.len() == 0 {
        Ok(ArgsState { options: OptionsView::none(), positional_only: false })
    } else {
        match parsed_args(args.drop_last()) {
            Ok(state) => with_arg(state, args.last()),
            Err(error) => Err(error),
        }
    }
}

/// What is wrong with the first arguments is wrong with all.
proof fn lemma_first_error(args: Seq<Seq<char>>, n: int)
    requires
        0 <= n <= args.len(),
        parsed_args(args.take(n)) is Err,
    ensures
        parsed_args(args) == parsed_args(args.take(n)),
    decreases args.len() - n,
{
    if n < args.len() {
        assert(args.take(n + 1).drop_last() =~= args.take(n));
        lemma_first_error(args, n + 1);
    } else {
        assert(args.take(n) =~= args);
    }
}

/// A text between two others.
fn quoted(before: &str, value: &str, after: &str) -> (r: String)
    ensures
        r@ == before@ + value@ + after@,
{
    let mut out: String = String::new();
    out.append(before);
    out.append(value);
    out.append(after);
    assert(out@ =~= before@ + value@ + after@);
    out
}

fn set_target(options: &mut Options, value: &str) -> (r: Result<(), String>)
    ensures
        old(options).target is Some ==> (r matches Err(error) && error@
            == "unexpected extra argument '"@ + value@ + "'"@) && *final(options) == *old(options),
        old(options).target is None ==> r is Ok && final(options).deep_view() == (OptionsView {
            target: Some(value@),
            ..old(options).deep_view()
        }),
{
    if options.target.is_some() {
        return Err(quoted("unexpected extra argument '", value, "'"));
    }
    options.target = Some(value.to_owned());
    Ok(())
}

/// Takes in one argument.
fn take_arg(options: &mut Options, positional_only: &mut bool, arg: &str) -> (r: Result<(), String>)
    ensures
        ({
            let before = ArgsState {
                options: old(options).deep_view(),
                positional_only: *old(positional_only),
            };
            let after = ArgsState {
                options: final(options).deep_view(),
                positional_only: *final(positional_only),
            };
            &&& r is Ok ==> with_arg(before, arg@) == Ok::<ArgsState, Seq<char>>(after)
            &&& r matches Err(error) ==> with_arg(before, arg@) == Err::<ArgsState, Seq<char>>(
                error@,
            )
        }),
{
    if *positional_only {
        return set_target(options, arg);
    }
    let chars: Vec<char> = text::chars_of(arg);
    let dash: Vec<char> = text::chars_of("-");
    if text::same_text(arg, "--") {
        *positional_only = true;
    } else if text::same_text(arg, "-h") || text::same_text(arg, "--help") {
        options.show_help = true;
    } else if text::same_text(arg, "-V") || text::same_text(arg, "--version") {
        options.show_version = true;
    } else if text::same_text(arg, "-v") || text::same_text(arg, "--verbose") {
        options.verbose = true;
    } else if text::same_text(arg, "--no-color") {
        options.no_color = true;
    } else if text::same_text(arg, "--ascii") {
        options.ascii = true;
    } else if text::begins_with(chars.as_slice(), dash.as_slice()) && !text::same_text(arg, "-") {
        return Err(quoted("unknown option '", arg, "'"));
    } else {
        return set_target(options, arg);
    }
    Ok(())
}

/// Parses arguments (without the program name).
pub fn parse(args: &[&str]) -> (r: Result<Options, String>)
    ensures
        r matches Ok(options) ==> (parsed_args(args.deep_view()) matches Ok(state)
            && state.options == options.deep_view()),
        r matches Err(error) ==> parsed_args(args.deep_view()) == Err::<ArgsState, Seq<char>>(
            error@,
        ),
{
    let ghost all = args.deep_view();
    let mut options: Options = Options::default();
    let mut positional_only: bool = false;
    let mut i: usize = 0;
    assert(all.take(0) =~= Seq::<Seq<char>>::empty());
    while i < args.len()
        invariant
            i <= args@.len(),
            all == args.deep_view(),
            parsed_args(all.take(i as int)) == Ok::<ArgsState, Seq<char>>(
                ArgsState { options: options.deep_view(), positional_only },
            ),
        decreases args@.len() - i,
    {
        assert(all.take(i + 1).drop_last() =~= all.take(i as int));
        assert(all[i as int] == args@[i as int]@);
        match take_arg(&mut options, &mut positional_only, args[i]) {
            Ok(()) => {},
            Err(error) => {
                proof {
                    lemma_first_error(all, i + 1);
                }
                return Err(error);
            },
        }
        i += 1;
    }
    assert(all.take(i as int) =~= all);
    Ok(options)
}

/// The `--help` text behind the version.
pub const USAGE: &'static str = " — explains why a Linux program does not work

USAGE:
    why [OPTIONS] <PROGRAM>

OPTIONS:
    -v, --verbose    also list every library that was found
        --no-color   disable ANSI colours (also honours NO_COLOR)
        --ascii      use ASCII markers instead of ✓ ⚠ ✗
    -h, --help       print this help
    -V, --version    print the version

EXIT STATUS:
    0   no problem found in the ELF metadata
    1   a problem was found
    2   the file could not be diagnosed

EXAMPLES:
    why ./game
    why /usr/bin/BitComet
    why --verbose ./some-broken-program
";

/// The `--help` text.
pub open spec fn help_text() -> Seq<char> {
    "why "@ + VERSION@ + USAGE@
}

/// The `--help` text.
pub fn usage() -> (r: String)
    ensures
        r@ == help_text(),
{
    quoted("why ", VERSION, USAGE)
}

// ---------------------------------------------------------------------------
// Laws
// ---------------------------------------------------------------------------

/// Behind `--`, an argument is a target whatever it looks like.
pub proof fn double_dash_stops_options(args: Seq<Seq<char>>, arg: Seq<char>)
    requires
        parsed_args(args) matches Ok(state) && !state.positional_only && state.options.target is None,
    ensures
        parsed_args(args.push("--"@).push(arg)) matches Ok(state) && state.options.target == Some(
            arg,
        ),
{
    reveal_with_fuel(parsed_args, 3);
    let one = args.push("--"@);
    let two = one.push(arg);
    assert(one.drop_last() =~= args);
    assert(two.drop_last() =~= one);
    assert(one.last() == "--"@);
    assert(two.last() == arg);
}

/// There is never more than one target: a second one is an error.
pub proof fn a_second_target_is_an_error(args: Seq<Seq<char>>, arg: Seq<char>)
    requires
        parsed_args(args) matches Ok(state) && state.options.target is Some && (
        state.positional_only || !text::starts_with(arg, "-"@)),
    ensures
        parsed_args(args.push(arg)) is Err,
{
    reveal_strlit("-");
    reveal_strlit("--");
    reveal_strlit("-h");
    reveal_strlit("--help");
    reveal_strlit("-V");
    reveal_strlit("--version");
    reveal_strlit("-v");
    reveal_strlit("--verbose");
    reveal_strlit("--no-color");
    reveal_strlit("--ascii");
    let all = args.push(arg);
    assert(all.drop_last() =~= args);
    let dash = "-"@;
    if !text::starts_with(arg, dash) {
        assert forall|word: Seq<char>|
            word.len() > 0 && #[trigger] word[0] == '-' implies arg != word by {
            if arg == word {
                assert(arg.subrange(0, 1) =~= dash);
                assert(arg.take(1) =~= dash);
            }
        }
        assert("--"@[0] == '-' && "-h"@[0] == '-' && "--help"@[0] == '-' && "-V"@[0] == '-'
            && "--version"@[0] == '-' && "-v"@[0] == '-' && "--verbose"@[0] == '-'
            && "--no-color"@[0] == '-' && "--ascii"@[0] == '-');
    }
}

/// An option that the `--help` text lists.
pub open spec fn is_option(opt: Seq<char>) -> bool {
    ||| opt == "-v"@ || opt == "--verbose"@
    ||| opt == "--no-color"@
    ||| opt == "--ascii"@
    ||| opt == "-h"@ || opt == "--help"@
    ||| opt == "-V"@ || opt == "--version"@
}

/// What stands in the second of two texts stands in both together.
proof fn lemma_stands_in_sum(a: Seq<char>, b: Seq<char>, p: Seq<char>, i: int)
    requires
        text::occurs_at(b, p, i),
    ensures
        text::contains_text(b, p),
        text::contains_text(a + b, p),
{
    let at = a.len() + i;
    assert((a + b).subrange(at, at + p.len()) =~= b.subrange(i, i + p.len()));
    assert(text::occurs_at(a + b, p, at));
}

/// The help text lists every option, and says how the program is called.
proof fn lemma_help_lists(opt: Seq<char>)
    requires
        is_option(opt) || opt == "USAGE"@,
    ensures
        text::contains_text(USAGE@, opt),
        text::contains_text(help_text(), opt),
{
    reveal_strlit("-v");
    reveal_strlit("--verbose");
    reveal_strlit("--no-color");
    reveal_strlit("--ascii");
    reveal_strlit("-h");
    reveal_strlit("--help");
    reveal_strlit("-V");
    reveal_strlit("--version");
    reveal_strlit("USAGE");
    reveal_strlit(
        " — explains why a Linux program does not work

USAGE:
    why [OPTIONS] <PROGRAM>

OPTIONS:
    -v, --verbose    also list every library that was found
        --no-color   disable ANSI colours (also honours NO_COLOR)
        --ascii      use ASCII markers instead of ✓ ⚠ ✗
    -h, --help       print this help
    -V, --version    print the version

EXIT STATUS:
    0   no problem found in the ELF metadata
    1   a problem was found
    2   the file could not be diagnosed

EXAMPLES:
    why ./game
    why /usr/bin/BitComet
    why --verbose ./some-broken-program
",
    );
    let before = "why "@ + VERSION@;
    if opt == "-v"@ {
        assert(USAGE@.subrange(96, 98) =~= opt);
        lemma_stands_in_sum(before, USAGE@, opt, 96);
    }
    if opt == "--verbose"@ {
        assert(USAGE@.subrange(100, 109) =~= opt);
        lemma_stands_in_sum(before, USAGE@, opt, 100);
    }
    if opt == "--no-color"@ {
        assert(USAGE@.subrange(160, 170) =~= opt);
        lemma_stands_in_sum(before, USAGE@, opt, 160);
    }
    if opt == "--ascii"@ {
        assert(USAGE@.subrange(226, 233) =~= opt);
        lemma_stands_in_sum(before, USAGE@, opt, 226);
    }
    if opt == "-h"@ {
        assert(USAGE@.subrange(278, 280) =~= opt);
        lemma_stands_in_sum(before, USAGE@, opt, 278);
    }
    if opt == "--help"@ {
        assert(USAGE@.subrange(282, 288) =~= opt);
        lemma_stands_in_sum(before, USAGE@, opt, 282);
    }
    if opt == "-V"@ {
        assert(USAGE@.subrange(315, 317) =~= opt);
        lemma_stands_in_sum(before, USAGE@, opt, 315);
    }
    if opt == "--version"@ {
        assert(USAGE@.subrange(319, 328) =~= opt);
        lemma_stands_in_sum(before, USAGE@, opt, 319);
    }
    if opt == "USAGE"@ {
        assert(USAGE@.subrange(47, 52) =~= opt);
        lemma_stands_in_sum(before, USAGE@, opt, 47);
    }
}

/// The help text names the version, and how the program is called.
pub proof fn the_help_names_the_version()
    ensures
        text::contains_text(help_text(), "USAGE"@),
        text::contains_text(help_text(), VERSION@),
{
    lemma_help_lists("USAGE"@);
    let at = "why "@.len() as int;
    assert(help_text().subrange(at, at + VERSION@.len()) =~= VERSION@);
    assert(text::occurs_at(help_text(), VERSION@, at));
}

/// Every option that the help text lists is accepted, alone and behind any
/// arguments that are in order, and takes nothing away from them.
pub proof fn every_listed_option_is_accepted(args: Seq<Seq<char>>, opt: Seq<char>)
    requires
        is_option(opt),
        parsed_args(args) matches Ok(state) && !state.positional_only,
    ensures
        text::contains_text(USAGE@, opt),
        text::contains_text(help_text(), opt),
        parsed_args(seq![opt]) is Ok,
        parsed_args(args.push(opt)) matches Ok(state) && !state.positional_only
            && state.options.target == (parsed_args(args)->Ok_0).options.target,
{
    lemma_help_lists(opt);
    lemma_options_differ();
    reveal_with_fuel(parsed_args, 2);
    assert(seq![opt].drop_last() =~= Seq::<Seq<char>>::empty());
    assert(args.push(opt).drop_last() =~= args);
}

/// `--` is not one of the options.
proof fn lemma_options_differ()
    ensures
        !is_option("--"@),
{
    reveal_strlit("--");
    reveal_strlit("-v");
    reveal_strlit("--verbose");
    reveal_strlit("--no-color");
    reveal_strlit("--ascii");
    reveal_strlit("-h");
    reveal_strlit("--help");
    reveal_strlit("-V");
    reveal_strlit("--version");
    assert("--"@.len() == 2 && "--verbose"@.len() == 9 && "--no-color"@.len() == 10
        && "--ascii"@.len() == 7 && "--help"@.len() == 6 && "--version"@.len() == 9);
    assert("--"@[1] == '-' && "-v"@[1] == 'v' && "-h"@[1] == 'h' && "-V"@[1] == 'V');
}

/// Only the options that the help text lists are accepted: anything else that
/// begins with a dash, but for `-` and `--`, is an error.
pub proof fn only_listed_options_are_accepted(args: Seq<Seq<char>>, arg: Seq<char>)
    requires
        parsed_args(args) matches Ok(state) && !state.positional_only,
        text::starts_with(arg, "-"@),
        arg != "-"@,
        arg != "--"@,
    ensures
        parsed_args(args.push(arg)) is Ok <==> is_option(arg),
        !is_option(arg) ==> parsed_args(args.push(arg)) == Err::<ArgsState, Seq<char>>(
            "unknown option '"@ + arg + "'"@,
        ),
{
    assert(args.push(arg).drop_last() =~= args);
}

} // verus!
