//! Scripts: shebang lines, and the commands that `env` runs for them.

use vstd::prelude::*;
use vstd::slice::slice_subrange;
use super::host;
use super::host::{Environment, EnvironmentView, FileFacts};
use super::{Analysis, AnalysisView, KindView, TargetKind};
use crate::path;
use crate::text;

verus! {

// ---------------------------------------------------------------------------
// Splitting like a shell
// ---------------------------------------------------------------------------

/// Where in a command line the next character stands.
#[derive(Debug, Clone, Copy, PartialEq, Eq, Structural)]
pub enum Mode {
    Plain,
    /// Behind a backslash.
    Escaped,
    /// Between quotes.
    Quoted(char),
    /// Behind a backslash between double quotes.
    QuotedEscaped,
}

/// A command line, read so far: the finished words, the word that is being
/// read, and whether there is one.
pub struct Reading {
    pub words: Seq<Seq<char>>,
    pub word: Seq<char>,
    pub open: bool,
    pub mode: Mode,
}

impl Reading {
    /// Nothing read.
    pub open spec fn start() -> Reading {
        Reading { words: Seq::empty(), word: Seq::empty(), open: false, mode: Mode::Plain }
    }

    /// With a character more in the word.
    pub open spec fn with(self, c: char, mode: Mode) -> Reading {
        Reading { words: self.words, word: self.word.push(c), open: true, mode }
    }

    /// In another mode, inside a word.
    pub open spec fn into(self, mode: Mode) -> Reading {
        Reading { words: self.words, word: self.word, open: true, mode }
    }

    /// With the word finished, where there is one.
    pub open spec fn finished(self) -> Reading {
        if self.open {
            Reading {
                words: self.words.push(self.word),
                word: Seq::empty(),
                open: false,
                mode: self.mode,
            }
        } else {
            self
        }
    }

    /// With one character more read. White space parts words, quotes group
    /// them, and a backslash takes the next character as it is, but for those
    /// in single quotes.
    pub open spec fn next(self, c: char) -> Reading {
        match self.mode {
            Mode::Escaped => self.with(c, Mode::Plain),
            Mode::QuotedEscaped => self.with(c, Mode::Quoted('"')),
            Mode::Quoted(quote) => if c == quote {
                self.into(Mode::Plain)
            } else if c == '\\' && quote == '"' {
                self.into(Mode::QuotedEscaped)
            } else {
                self.with(c, Mode::Quoted(quote))
            },
            Mode::Plain => if text::is_white(c) {
                self.finished()
            } else if c == '\'' || c == '"' {
                self.into(Mode::Quoted(c))
            } else if c == '\\' {
                self.into(Mode::Escaped)
            } else {
                self.with(c, Mode::Plain)
            },
        }
    }
}

/// A command line, read.
pub open spec fn reading(s: Seq<char>) -> Reading
    decreases s.len(),
{
    if s.len() == 0 {
        Reading::start()
    } else {
        reading(s.drop_last()).next(s.last())
    }
}

/// The words of a command line.
pub open spec fn shell_words(s: Seq<char>) -> Seq<Seq<char>> {
    reading(s).finished().words
}

/// Splits a string the way `env -S` does: shell-like quoting and escapes.
pub fn shell_split(input: &[char]) -> (r: Vec<Vec<char>>)
    ensures
        r.deep_view() == shell_words(input@),
{
    let mut words: Vec<Vec<char>> = Vec::new();
    let mut word: Vec<char> = Vec::new();
    let mut open: bool = false;
    let mut mode: Mode = Mode::Plain;
    let mut i: usize = 0;
    assert(input@.take(0) =~= Seq::<char>::empty());
    assert(words.deep_view() =~= Seq::<Seq<char>>::empty());
    assert(word@ =~= Seq::<char>::empty());
    while i < input.len()
        invariant
            i <= input@.len(),
            !open ==> word@ == Seq::<char>::empty(),
            reading(input@.take(i as int)) == (Reading {
                words: words.deep_view(),
                word: word@,
                open,
                mode,
            }),
        decreases input@.len() - i,
    {
        let c: char = input[i];
        assert(input@.take(i + 1).drop_last() =~= input@.take(i as int));
        match mode {
            Mode::Escaped => {
                word.push(c);
                open = true;
                mode = Mode::Plain;
            },
            Mode::QuotedEscaped => {
                word.push(c);
                open = true;
                mode = Mode::Quoted('"');
            },
            Mode::Quoted(quote) => {
                open = true;
                if c == quote {
                    mode = Mode::Plain;
                } else if c == '\\' && quote == '"' {
                    mode = Mode::QuotedEscaped;
                } else {
                    word.push(c);
                }
            },
            Mode::Plain => {
                if text::white(c) {
                    if open {
                        let ghost before = words.deep_view();
                        let ghost added = word.deep_view();
                        assert(added =~= word@);
                        words.push(word);
                        assert(words.deep_view() =~= before.push(added));
                        word = Vec::new();
                        open = false;
                        assert(word@ =~= Seq::<char>::empty());
                    }
                } else {
                    open = true;
                    if c == '\'' || c == '"' {
                        mode = Mode::Quoted(c);
                    } else if c == '\\' {
                        mode = Mode::Escaped;
                    } else {
                        word.push(c);
                    }
                }
            },
        }
        i += 1;
    }
    assert(input@.take(i as int) =~= input@);
    if open {
        let ghost before = words.deep_view();
        let ghost added = word.deep_view();
        assert(added =~= word@);
        words.push(word);
        assert(words.deep_view() =~= before.push(added));
    }
    words
}

/// Text between two single quotes is read as it is.
proof fn lemma_quoted(s: Seq<char>)
    requires
        !s.contains('\''),
    ensures
        reading(seq!['\''] + s) == (Reading {
            words: Seq::empty(),
            word: s,
            open: true,
            mode: Mode::Quoted('\''),
        }),
    decreases s.len(),
{
    let all = seq!['\''] + s;
    reveal_with_fuel(reading, 2);
    if s.len() == 0 {
        assert(all.drop_last() =~= Seq::<char>::empty());
        assert(all.last() == '\'');
        assert(s =~= Seq::<char>::empty());
    } else {
        let front = s.drop_last();
        assert(!front.contains('\'')) by {
            if front.contains('\'') {
                let i = choose|i: int| 0 <= i < front.len() && front[i] == '\'';
                assert(s[i] == '\'');
            }
        }
        lemma_quoted(front);
        assert(all.drop_last() =~= seq!['\''] + front);
        assert(all.last() == s.last());
        assert(s[s.len() - 1] != '\'');
        assert(front.push(s.last()) =~= s);
    }
}

/// Quotes group words: any text in single quotes, with no single quote in it,
/// is one word, and comes out as it is.
pub proof fn quotes_group_words(s: Seq<char>)
    requires
        !s.contains('\''),
    ensures
        shell_words(seq!['\''] + s + seq!['\'']) == seq![s],
{
    let all = seq!['\''] + s + seq!['\''];
    lemma_quoted(s);
    assert(all.drop_last() =~= seq!['\''] + s);
    assert(all.last() == '\'');
    assert(Seq::<Seq<char>>::empty().push(s) =~= seq![s]);
}

// ---------------------------------------------------------------------------
// The command behind `env`
// ---------------------------------------------------------------------------

/// What a field behind `env` is.
pub enum Field {
    /// The command.
    Command(Seq<char>),
    /// No option comes behind it.
    OptionsOver,
    /// An option, or an assignment.
    Skipped,
    /// An option whose value is the field behind it.
    TakesValue,
    /// A command line, whose words stand in the place of the field.
    Split(Seq<char>),
}

/// What a cluster of short options is. `u` and `C` take a value, and what is
/// behind `S` is a command line.
pub open spec fn cluster(s: Seq<char>) -> Field
    decreases s.len(),
{
    if s.len() == 0 {
        Field::Skipped
    } else if s[0] == 'S' {
        Field::Split(s.drop_first())
    } else if s[0] == 'u' || s[0] == 'C' {
        if s.len() == 1 {
            Field::TakesValue
        } else {
            Field::Skipped
        }
    } else {
        cluster(s.drop_first())
    }
}

/// What a field behind `env` is, before the options are over.
pub open spec fn field_kind(f: Seq<char>) -> Field {
    if f == "--"@ {
        Field::OptionsOver
    } else if text::starts_with(f, "--split-string="@) {
        Field::Split(f.skip(15))
    } else if f == "--unset"@ || f == "--chdir"@ {
        Field::TakesValue
    } else if text::starts_with(f, "--"@) {
        Field::Skipped
    } else if text::starts_with(f, "-"@) && f.len() > 1 {
        cluster(f.drop_first())
    } else if f.contains('=') {
        Field::Skipped
    } else {
        Field::Command(f)
    }
}

/// How much there is to read in some fields.
pub open spec fn weight(fields: Seq<Seq<char>>) -> nat
    decreases fields.len(),
{
    if fields.len() == 0 {
        0
    } else {
        weight(fields.drop_last()) + fields.last().len() + 1
    }
}

proof fn lemma_weight_of_sum(a: Seq<Seq<char>>, b: Seq<Seq<char>>)
    ensures
        weight(a + b) == weight(a) + weight(b),
    decreases b.len(),
{
    if b.len() == 0 {
        assert(a + b =~= a);
    } else {
        lemma_weight_of_sum(a, b.drop_last());
        assert((a + b).drop_last() =~= a + b.drop_last());
    }
}

/// The first field weighs something.
proof fn lemma_weight_of_rest(fields: Seq<Seq<char>>)
    requires
        fields.len() > 0,
    ensures
        weight(fields) == weight(fields.drop_first()) + fields[0].len() + 1,
{
    reveal_with_fuel(weight, 2);
    assert(seq![fields[0]].drop_last() =~= Seq::<Seq<char>>::empty());
    assert(fields =~= seq![fields[0]] + fields.drop_first());
    lemma_weight_of_sum(seq![fields[0]], fields.drop_first());
}

/// Words weigh no more than the command line that they were split from.
proof fn lemma_weight_of_words(s: Seq<char>)
    ensures
        reading(s).open ==> weight(reading(s).words) + reading(s).word.len() <= s.len(),
        !reading(s).open ==> weight(reading(s).words) <= s.len() && reading(s).word.len() == 0,
        weight(shell_words(s)) <= s.len() + 1,
    decreases s.len(),
{
    if s.len() > 0 {
        lemma_weight_of_words(s.drop_last());
        let before = reading(s.drop_last());
        assert(before.words.push(before.word).drop_last() =~= before.words);
    }
    let now = reading(s);
    assert(now.words.push(now.word).drop_last() =~= now.words);
}

/// A command line is shorter than the field that it is in.
proof fn lemma_split_is_shorter(f: Seq<char>)
    ensures
        field_kind(f) matches Field::Split(line) ==> line.len() + 2 <= f.len(),
        cluster(f) matches Field::Split(line) ==> line.len() + 1 <= f.len(),
    decreases f.len(),
{
    reveal_strlit("--split-string=");
    if f.len() > 0 {
        lemma_split_is_shorter(f.drop_first());
    }
}

/// The command behind the options: the first field that is no assignment;
/// empty where there is none.
pub open spec fn operand_in(fields: Seq<Seq<char>>) -> Seq<char>
    decreases fields.len(),
{
    if fields.len() == 0 {
        Seq::empty()
    } else if fields[0].contains('=') {
        operand_in(fields.drop_first())
    } else {
        fields[0]
    }
}

/// The command that some fields name; empty where they name none.
pub open spec fn command_in(fields: Seq<Seq<char>>) -> Seq<char>
    decreases weight(fields),
    via reading_on_is_less
{
    if fields.len() == 0 {
        Seq::empty()
    } else {
        match field_kind(fields[0]) {
            Field::Command(command) => command,
            Field::OptionsOver => operand_in(fields.drop_first()),
            Field::Skipped => command_in(fields.drop_first()),
            Field::TakesValue => if fields.len() > 1 {
                command_in(fields.skip(2))
            } else {
                Seq::empty()
            },
            Field::Split(line) => command_in(shell_words(line) + fields.drop_first()),
        }
    }
}

#[via_fn]
proof fn reading_on_is_less(fields: Seq<Seq<char>>) {
    if fields.len() > 0 {
        lemma_steps(fields);
    }
}

/// However reading goes on, there is less to read.
proof fn lemma_steps(fields: Seq<Seq<char>>)
    requires
        fields.len() > 0,
    ensures
        weight(fields.drop_first()) < weight(fields),
        fields.len() > 1 ==> weight(fields.skip(2)) < weight(fields),
        field_kind(fields[0]) matches Field::Split(line) ==> weight(
            shell_words(line) + fields.drop_first(),
        ) < weight(fields),
{
    let rest = fields.drop_first();
    lemma_weight_of_rest(fields);
    if fields.len() > 1 {
        lemma_weight_of_rest(rest);
        assert(rest.drop_first() =~= fields.skip(2));
    }
    lemma_split_is_shorter(fields[0]);
    match field_kind(fields[0]) {
        Field::Split(line) => {
            lemma_weight_of_words(line);
            lemma_weight_of_sum(shell_words(line), rest);
        },
        _ => {},
    }
}

/// The command that a shebang through `env` names.
pub open spec fn command_of(shebang: Seq<char>) -> Seq<char> {
    if shell_words(shebang).len() == 0 {
        Seq::empty()
    } else {
        command_in(shell_words(shebang).drop_first())
    }
}

/// A field behind `env`, read.
enum FieldKind {
    Command,
    OptionsOver,
    Skipped,
    TakesValue,
    Split(Vec<char>),
}

/// The same, as its specification says it.
spec fn kind_of(k: FieldKind, f: Seq<char>) -> Field {
    match k {
        FieldKind::Command => Field::Command(f),
        FieldKind::OptionsOver => Field::OptionsOver,
        FieldKind::Skipped => Field::Skipped,
        FieldKind::TakesValue => Field::TakesValue,
        FieldKind::Split(line) => Field::Split(line@),
    }
}

/// Walks a cluster of short options.
fn read_cluster(s: &[char]) -> (r: FieldKind)
    ensures
        !(r is Command),
        kind_of(r, s@) == cluster(s@),
{
    let mut i: usize = 0;
    assert(s@.skip(0) =~= s@);
    while i < s.len()
        invariant
            i <= s@.len(),
            cluster(s@) == cluster(s@.skip(i as int)),
        decreases s@.len() - i,
    {
        assert(s@.skip(i as int).drop_first() =~= s@.skip(i + 1));
        let flag: char = s[i];
        if flag == 'S' {
            let line: &[char] = slice_subrange(s, i + 1, s.len());
            assert(line@ =~= s@.skip(i + 1));
            return FieldKind::Split(text::slice_to_chars(line));
        }
        if flag == 'u' || flag == 'C' {
            if i + 1 == s.len() {
                return FieldKind::TakesValue;
            }
            return FieldKind::Skipped;
        }
        i += 1;
    }
    FieldKind::Skipped
}

/// Whether characters spell a text.
fn spells(s: &[char], word: &str) -> (r: bool)
    ensures
        r == (s@ == word@),
{
    let w: Vec<char> = text::chars_of(word);
    text::same_chars(s, w.as_slice())
}

/// Whether characters begin with a text.
fn opens_with(s: &[char], word: &str) -> (r: bool)
    ensures
        r == text::starts_with(s@, word@),
{
    let w: Vec<char> = text::chars_of(word);
    text::begins_with(s, w.as_slice())
}

/// Reads a field behind `env`.
fn read_field(f: &[char]) -> (r: FieldKind)
    ensures
        kind_of(r, f@) == field_kind(f@),
{
    proof {
        reveal_strlit("--split-string=");
        reveal_strlit("-");
    }
    if spells(f, "--") {
        return FieldKind::OptionsOver;
    }
    if opens_with(f, "--split-string=") {
        let line: &[char] = slice_subrange(f, 15, f.len());
        assert(line@ =~= f@.skip(15));
        return FieldKind::Split(text::slice_to_chars(line));
    }
    // `--unset=NAME` carries its value inline; the separate forms need a
    // lookahead.
    if spells(f, "--unset") || spells(f, "--chdir") {
        return FieldKind::TakesValue;
    }
    // `--split-string` is passed over too: what is behind it was split with
    // the rest of the line.
    if opens_with(f, "--") {
        return FieldKind::Skipped;
    }
    if opens_with(f, "-") && f.len() > 1 {
        let flags: &[char] = slice_subrange(f, 1, f.len());
        assert(flags@ =~= f@.drop_first());
        return read_cluster(flags);
    }
    // A `VAR=value` assignment comes before the command.
    if text::has_char(f, '=') {
        return FieldKind::Skipped;
    }
    FieldKind::Command
}

/// Finds the command behind the options, from the field at `start` on.
fn find_operand(fields: &Vec<Vec<char>>, start: usize) -> (r: String)
    requires
        start <= fields@.len(),
    ensures
        r@ == operand_in(fields.deep_view().skip(start as int)),
{
    let ghost all = fields.deep_view();
    let mut i: usize = start;
    while i < fields.len()
        invariant
            i <= fields@.len(),
            all == fields.deep_view(),
            operand_in(all.skip(start as int)) == operand_in(all.skip(i as int)),
        decreases fields@.len() - i,
    {
        assert(all[i as int] =~= fields@[i as int]@);
        assert(all.skip(i as int)[0] == all[i as int]);
        assert(all.skip(i as int).drop_first() =~= all.skip(i + 1));
        if !text::has_char(fields[i].as_slice(), '=') {
            return text::string_of(fields[i].as_slice());
        }
        i += 1;
    }
    let none: String = String::new();
    assert(none@ =~= Seq::<char>::empty());
    none
}

/// Puts the words of a command line before the fields from `start` on.
fn split_before(line: &[char], fields: &Vec<Vec<char>>, start: usize) -> (r: Vec<Vec<char>>)
    requires
        start <= fields@.len(),
    ensures
        r.deep_view() == shell_words(line@) + fields.deep_view().skip(start as int),
{
    let ghost rest = fields.deep_view().skip(start as int);
    let mut out: Vec<Vec<char>> = shell_split(line);
    let mut i: usize = start;
    assert(out.deep_view() =~= shell_words(line@) + rest.take(0));
    while i < fields.len()
        invariant
            start <= i <= fields@.len(),
            rest == fields.deep_view().skip(start as int),
            out.deep_view() == shell_words(line@) + rest.take(i - start),
        decreases fields@.len() - i,
    {
        let ghost so_far = out.deep_view();
        let field: Vec<char> = text::slice_to_chars(fields[i].as_slice());
        let ghost added = field.deep_view();
        assert(added =~= fields@[i as int].deep_view());
        assert(rest[i - start] == fields.deep_view()[i as int]);
        out.push(field);
        assert(out.deep_view() =~= so_far.push(added));
        i += 1;
        assert(out.deep_view() =~= shell_words(line@) + rest.take(i - start));
    }
    assert(rest.take(i - start) =~= rest);
    out
}

/// The command named after `env`, skipping its options and `VAR=value` pairs.
///
/// The kernel passes the whole shebang tail as a single argument, so `env`
/// needs `-S` to split it; that split follows shell-like rules, so quotes group
/// words, and what it gives is read as if it had stood there: options and
/// `VAR=value` pairs come before the command. Options are not uniform either:
/// `-u`/`--unset` and `-C`/`--chdir` take a value, which must be consumed or it
/// is mistaken for the command.
pub fn env_command(shebang: &str) -> (r: String)
    ensures
        r@ == command_of(shebang@),
{
    let chars: Vec<char> = text::chars_of(shebang);
    let mut fields: Vec<Vec<char>> = shell_split(chars.as_slice());
    let none: String = String::new();
    assert(none@ =~= Seq::<char>::empty());
    if fields.len() == 0 {
        assert(fields.deep_view().len() == 0);
        return none;
    }
    // The first field is the env program itself.
    let mut i: usize = 1;
    assert(fields.deep_view().skip(1) =~= fields.deep_view().drop_first());
    while i < fields.len()
        invariant
            i <= fields@.len(),
            none@ == Seq::<char>::empty(),
            command_of(shebang@) == command_in(fields.deep_view().skip(i as int)),
        decreases weight(fields.deep_view().skip(i as int)),
    {
        let ghost all = fields.deep_view();
        let ghost here = all.skip(i as int);
        assert(all[i as int] =~= fields@[i as int]@);
        assert(here[0] == all[i as int]);
        assert(here.drop_first() =~= all.skip(i + 1));
        proof {
            lemma_steps(here);
        }
        match read_field(fields[i].as_slice()) {
            FieldKind::Command => {
                return text::string_of(fields[i].as_slice());
            },
            FieldKind::OptionsOver => {
                return find_operand(&fields, i + 1);
            },
            FieldKind::Skipped => {
                i += 1;
            },
            FieldKind::TakesValue => {
                if i + 1 >= fields.len() {
                    return none;
                }
                assert(here.skip(2) =~= all.skip(i + 2));
                i += 2;
            },
            FieldKind::Split(line) => {
                fields = split_before(line.as_slice(), &fields, i + 1);
                i = 0;
                assert(fields.deep_view().skip(0) =~= fields.deep_view());
            },
        }
    }
    none
}

proof fn lemma_operand(fields: Seq<Seq<char>>)
    ensures
        !operand_in(fields).contains('='),
    decreases fields.len(),
{
    if fields.len() > 0 && fields[0].contains('=') {
        lemma_operand(fields.drop_first());
    }
}

proof fn lemma_command(fields: Seq<Seq<char>>)
    ensures
        !command_in(fields).contains('='),
    decreases weight(fields),
{
    if fields.len() > 0 {
        lemma_steps(fields);
        match field_kind(fields[0]) {
            Field::Command(_) => {
                lemma_clusters_name_nothing(fields[0].drop_first());
            },
            Field::OptionsOver => {
                lemma_operand(fields.drop_first());
            },
            Field::Skipped => {
                lemma_command(fields.drop_first());
            },
            Field::TakesValue => {
                if fields.len() > 1 {
                    lemma_command(fields.skip(2));
                }
            },
            Field::Split(line) => {
                lemma_command(shell_words(line) + fields.drop_first());
            },
        }
    }
}

proof fn lemma_clusters_name_nothing(s: Seq<char>)
    ensures
        !(cluster(s) is Command),
    decreases s.len(),
{
    if s.len() > 0 {
        lemma_clusters_name_nothing(s.drop_first());
    }
}

/// A `VAR=value` pair is never taken for the command, wherever it stands.
pub proof fn the_command_is_no_assignment(shebang: Seq<char>)
    ensures
        !command_of(shebang).contains('='),
{
    if shell_words(shebang).len() > 0 {
        lemma_command(shell_words(shebang).drop_first());
    }
}

/// A `VAR=value` pair changes nothing in what the fields behind it name, both
/// before and behind `--`.
pub proof fn assignments_are_skipped(pair: Seq<char>, fields: Seq<Seq<char>>)
    requires
        pair.contains('='),
        pair[0] != '-',
    ensures
        command_in(seq![pair] + fields) == command_in(fields),
        command_in(seq!["--"@, pair] + fields) == command_in(seq!["--"@] + fields),
{
    let all = seq![pair] + fields;
    reveal_strlit("-");
    reveal_strlit("--");
    reveal_strlit("--split-string=");
    reveal_strlit("--unset");
    reveal_strlit("--chdir");
    assert(pair.len() > 0);
    assert("--"@[0] == '-' && "--unset"@[0] == '-' && "--chdir"@[0] == '-');
    assert(!text::starts_with(pair, "-"@)) by {
        assert(pair.take(1)[0] == pair[0]);
    }
    assert(!text::starts_with(pair, "--"@)) by {
        assert(pair.len() > 1 ==> pair.take(2)[0] == pair[0]);
    }
    assert(!text::starts_with(pair, "--split-string="@)) by {
        assert(pair.len() > 14 ==> pair.take(15)[0] == pair[0]);
    }
    assert(all[0] == pair);
    assert(field_kind(pair) is Skipped);
    assert(all.drop_first() =~= fields);
    assert(operand_in(all) == operand_in(fields));
    assert((seq!["--"@, pair] + fields)[0] == "--"@);
    assert((seq!["--"@, pair] + fields).drop_first() =~= all);
    assert((seq!["--"@] + fields)[0] == "--"@);
    assert((seq!["--"@] + fields).drop_first() =~= fields);
}

/// `-S` and `--split-string` alone change nothing in what the fields behind
/// them name: the line was split already.
pub proof fn splitting_again_changes_nothing(fields: Seq<Seq<char>>)
    ensures
        command_in(seq!["-S"@] + fields) == command_in(fields),
        command_in(seq!["--split-string"@] + fields) == command_in(fields),
{
    reveal_strlit("-");
    reveal_strlit("--");
    reveal_strlit("-S");
    reveal_strlit("--split-string");
    reveal_strlit("--split-string=");
    reveal_strlit("--unset");
    reveal_strlit("--chdir");
    let short = seq!["-S"@] + fields;
    let long = seq!["--split-string"@] + fields;
    let none = "-S"@.drop_first().drop_first();
    assert(short[0] == "-S"@ && short.drop_first() =~= fields);
    assert(long[0] == "--split-string"@ && long.drop_first() =~= fields);
    assert(field_kind("-S"@) == Field::Split(none)) by {
        assert("-S"@[1] == 'S' && "--"@[1] == '-');
        assert("-S"@.take(1) =~= "-"@);
        assert("-S"@.take(2)[1] == 'S');
    }
    assert(field_kind("--split-string"@) is Skipped) by {
        assert("--split-string"@.take(2) =~= "--"@);
        assert("--split-string"@.len() != "--unset"@.len());
        assert("--split-string"@.len() != "--chdir"@.len());
        assert("--split-string"@.len() != "--"@.len());
    }
    assert(none =~= Seq::<char>::empty());
    assert(shell_words(none) =~= Seq::<Seq<char>>::empty());
    assert(shell_words(none) + fields =~= fields);
}

// ---------------------------------------------------------------------------
// Shebang lines
// ---------------------------------------------------------------------------

/// The shebang goes through `env`.
pub open spec fn through_env(shebang: Seq<char>) -> bool {
    path::file_name(text::first_word(shebang)) == Some("env"@)
}

/// True for `#!/usr/bin/env ...` shebangs.
pub fn is_env_shebang(shebang: &str) -> (r: bool)
    ensures
        r == through_env(shebang@),
{
    let chars: Vec<char> = text::chars_of(shebang);
    let program: Vec<char> = text::word(chars.as_slice());
    match path::name_of(program.as_slice()) {
        Some(name) => spells(name.as_slice(), "env"),
        None => false,
    }
}

/// What a shebang line names: the command, and whether it is resolved through
/// `PATH`.
#[derive(Debug, Clone)]
pub struct Shebang {
    pub command: String,
    pub via_env: bool,
}

/// What a [`Shebang`] holds.
pub struct ShebangView {
    pub command: Seq<char>,
    pub via_env: bool,
}

impl DeepView for Shebang {
    type V = ShebangView;

    open spec fn deep_view(&self) -> ShebangView {
        ShebangView { command: self.command@, via_env: self.via_env }
    }
}

/// A line without the `#!` marks at its start.
pub open spec fn unmarked(s: Seq<char>) -> Seq<char>
    decreases s.len(),
{
    if s.len() >= 2 && s[0] == '#' && s[1] == '!' {
        unmarked(s.skip(2))
    } else {
        s
    }
}

/// What a first line names.
pub open spec fn named_by(line: Seq<char>) -> ShebangView {
    let shebang = text::trimmed(unmarked(line));
    ShebangView {
        command: if through_env(shebang) {
            command_of(shebang)
        } else {
            text::first_word(shebang)
        },
        via_env: through_env(shebang),
    }
}

/// Reads the first line of a script.
///
/// `#!/usr/bin/env perl` names a command, not a path: resolving it is the whole
/// point of using env, so `PATH` is checked rather than `/usr/bin/env`.
pub fn read_shebang(line: &str) -> (r: Shebang)
    ensures
        r.deep_view() == named_by(line@),
{
    let chars: Vec<char> = text::chars_of(line);
    let mut start: usize = 0;
    assert(chars@.skip(0) =~= chars@);
    while chars.len() - start >= 2 && chars[start] == '#' && chars[start + 1] == '!'
        invariant
            start <= chars@.len(),
            unmarked(chars@) == unmarked(chars@.skip(start as int)),
        decreases chars@.len() - start,
    {
        assert(chars@.skip(start as int).skip(2) =~= chars@.skip(start + 2));
        start += 2;
    }
    let rest: &[char] = slice_subrange(chars.as_slice(), start, chars.len());
    assert(rest@ =~= chars@.skip(start as int));
    let shebang: &[char] = text::trim(rest);
    let shebang_text: String = text::string_of(shebang);
    if is_env_shebang(shebang_text.as_str()) {
        Shebang { command: env_command(shebang_text.as_str()), via_env: true }
    } else {
        let command: Vec<char> = text::word(shebang);
        Shebang { command: text::string_of(command.as_slice()), via_env: false }
    }
}

/// The bytes before the first newline.
pub open spec fn first_line(d: Seq<u8>) -> Seq<u8>
    decreases d.len(),
{
    if d.len() == 0 || d[0] == 10 {
        Seq::empty()
    } else {
        seq![d[0]] + first_line(d.drop_first())
    }
}

/// The bytes before the first newline.
pub fn cut_first_line<'a>(data: &'a [u8]) -> (r: &'a [u8])
    ensures
        r@ == first_line(data@),
{
    let mut end: usize = 0;
    assert(data@.skip(0) =~= data@);
    assert(data@.take(0) + first_line(data@) =~= first_line(data@));
    while end < data.len() && data[end] != 10
        invariant
            end <= data@.len(),
            first_line(data@) == data@.take(end as int) + first_line(data@.skip(end as int)),
        decreases data@.len() - end,
    {
        let ghost rest = data@.skip(end as int);
        assert(rest.drop_first() =~= data@.skip(end + 1));
        assert(data@.take(end as int) + (seq![rest[0]] + first_line(rest.drop_first()))
            =~= data@.take(end + 1) + first_line(data@.skip(end + 1)));
        end += 1;
    }
    let line: &[u8] = slice_subrange(data, 0, end);
    assert(line@ =~= data@.take(end as int) + first_line(data@.skip(end as int)));
    line
}

/// What a script names.
pub open spec fn script_of(data: Seq<u8>) -> ShebangView {
    named_by(text::utf8_lossy(first_line(data)))
}

/// Reads which command a script names.
pub fn shebang_of(data: &[u8]) -> (r: Shebang)
    ensures
        r.deep_view() == script_of(data@),
{
    let line: String = text::decode_lossy(cut_first_line(data));
    read_shebang(line.as_str())
}

/// What is noted about a shebang.
pub open spec fn shebang_notes(shebang: ShebangView) -> Seq<Seq<char>> {
    if !shebang.via_env {
        Seq::empty()
    } else if text::any_white(shebang.command) {
        seq![
            "the shebang uses `env`, so the interpreter is resolved through PATH"@,
            "`env` treats `"@ + shebang.command
                + "` as one command name; a shebang argument with spaces needs `-S` and no quoting"@,
        ]
    } else {
        seq!["the shebang uses `env`, so the interpreter is resolved through PATH"@]
    }
}

/// What is known of a script.
pub open spec fn script_analysis(
    path: Seq<char>,
    shebang: ShebangView,
    facts: Option<FileFacts>,
    path_var: Option<Seq<char>>,
    seen: Seq<Option<FileFacts>>,
    env: EnvironmentView,
) -> AnalysisView {
    AnalysisView {
        path,
        kind: KindView::Script { interpreter: shebang.command },
        not_a_program: None,
        arch: None,
        permissions: host::permissions_of(path, facts),
        interpreter: Some(
            host::interpreter_found(shebang.command, shebang.via_env, path_var, seen),
        ),
        libraries: Seq::empty(),
        unresolved: Seq::empty(),
        version_problems: Seq::empty(),
        env: host::env_notes(env),
        notes: shebang_notes(shebang),
    }
}

/// Notes what a shebang does.
fn note_shebang(shebang: &Shebang) -> (r: Vec<String>)
    ensures
        r.deep_view() == shebang_notes(shebang.deep_view()),
{
    let mut notes: Vec<String> = Vec::new();
    assert(notes.deep_view() =~= Seq::<Seq<char>>::empty());
    if shebang.via_env {
        let first: String =
            "the shebang uses `env`, so the interpreter is resolved through PATH".to_owned();
        let ghost one = first@;
        assert(one == "the shebang uses `env`, so the interpreter is resolved through PATH"@);
        notes.push(first);
        assert(notes.deep_view() =~= seq![one]);
        let chars: Vec<char> = text::chars_of(shebang.command.as_str());
        if text::has_white(chars.as_slice()) {
            let mut second: String = String::new();
            second.append("`env` treats `");
            second.append(shebang.command.as_str());
            second.append(
                "` as one command name; a shebang argument with spaces needs `-S` and no quoting",
            );
            let ghost two = second@;
            assert(two =~= "`env` treats `"@ + shebang.command@
                + "` as one command name; a shebang argument with spaces needs `-S` and no quoting"@);
            notes.push(second);
            assert(notes.deep_view() =~= seq![one, two]);
        }
        assert(notes.deep_view() =~= shebang_notes(shebang.deep_view()));
    }
    notes
}

/// Puts together what is known of a script: what its shebang names, what the
/// file system says of it, and what stands at each of the
/// [candidates](host::interpreter_candidates) for its interpreter.
pub fn analyze_script(
    path: &str,
    shebang: &Shebang,
    facts: Option<FileFacts>,
    path_var: Option<&str>,
    seen: &[Option<FileFacts>],
    env: &Environment,
) -> (r: Analysis)
    ensures
        r.deep_view() == script_analysis(
            path@,
            shebang.deep_view(),
            facts,
            path_var.deep_view(),
            seen@,
            env.deep_view(),
        ),
{
    let r: Analysis = Analysis {
        path: path.to_owned(),
        kind: TargetKind::Script { interpreter: shebang.command.clone() },
        not_a_program: None,
        arch: None,
        permissions: host::permission_finding(path, facts),
        interpreter: Some(
            host::interpreter_finding(shebang.command.as_str(), shebang.via_env, path_var, seen),
        ),
        libraries: Vec::new(),
        unresolved: Vec::new(),
        version_problems: Vec::new(),
        env: host::env_findings(env),
        notes: note_shebang(shebang),
    };
    assert(r.libraries.deep_view() =~= Seq::<super::LibraryView>::empty());
    assert(r.unresolved.deep_view() =~= Seq::<super::UnresolvedView>::empty());
    assert(r.version_problems.deep_view() =~= Seq::<super::VersionView>::empty());
    r
}

} // verus!
