//! Scripts: how the first line names the interpreter.

use vstd::prelude::*;
use super::words;
use crate::analyze::host;
use crate::analyze::host::{EnvironmentView, FileFacts};
use crate::analyze::script;
use crate::analyze::script::{Mode, Reading, ShebangView};
use crate::analyze::KindView;
use crate::path;
use crate::text;

verus! {

// ---------------------------------------------------------------------------
// Words
// ---------------------------------------------------------------------------

/// The ways in which a word can be written.
pub enum Form {
    Bare,
    /// Between single quotes.
    Single,
    /// Between double quotes.
    Double,
    /// Every character behind a backslash.
    Escaped,
    /// Between double quotes, every character behind a backslash.
    DoubleEscaped,
}

/// Every character behind a backslash.
pub open spec fn escaped(word: Seq<char>) -> Seq<char>
    decreases word.len(),
{
    if word.len() == 0 {
        Seq::empty()
    } else {
        escaped(word.drop_last()).push('\\').push(word.last())
    }
}

/// A character that stands for itself outside of quotes.
pub open spec fn stands_for_itself(c: char) -> bool {
    !text::is_white(c) && c != '\'' && c != '"' && c != '\\'
}

/// The word can be written in this form.
pub open spec fn can_be_written(word: Seq<char>, form: Form) -> bool {
    match form {
        Form::Bare => word.len() > 0 && forall|i: int|
            0 <= i < word.len() ==> stands_for_itself(#[trigger] word[i]),
        Form::Single => !word.contains('\''),
        Form::Double => !word.contains('"') && !word.contains('\\'),
        Form::Escaped => word.len() > 0,
        Form::DoubleEscaped => true,
    }
}

/// The word in a form.
pub open spec fn written(word: Seq<char>, form: Form) -> Seq<char> {
    match form {
        Form::Bare => word,
        Form::Single => seq!['\''] + word + seq!['\''],
        Form::Double => seq!['"'] + word + seq!['"'],
        Form::Escaped => escaped(word),
        Form::DoubleEscaped => seq!['"'] + escaped(word) + seq!['"'],
    }
}

proof fn lemma_next(s: Seq<char>, c: char)
    ensures
        script::reading(s.push(c)) == script::reading(s).next(c),
{
    assert(s.push(c).drop_last() =~= s);
}

spec fn grown(r: Reading, word: Seq<char>, mode: Mode) -> Reading {
    Reading { words: r.words, word: r.word + word, open: true, mode }
}

proof fn lemma_bare(s: Seq<char>, word: Seq<char>)
    requires
        script::reading(s).mode is Plain,
        can_be_written(word, Form::Bare),
    ensures
        script::reading(s + word) == grown(script::reading(s), word, Mode::Plain),
    decreases word.len(),
{
    let before = word.drop_last();
    let r = script::reading(s);
    assert(s + word =~= (s + before).push(word.last()));
    assert(stands_for_itself(word[word.len() - 1]));
    lemma_next(s + before, word.last());
    if before.len() == 0 {
        assert(s + before =~= s);
        assert(r.word.push(word.last()) =~= r.word + word);
    } else {
        assert forall|i: int| 0 <= i < before.len() implies stands_for_itself(
            #[trigger] before[i],
        ) by {
            assert(before[i] == word[i]);
        }
        lemma_bare(s, before);
        assert((r.word + before).push(word.last()) =~= r.word + word);
    }
}

proof fn lemma_between(s: Seq<char>, word: Seq<char>, quote: char)
    requires
        script::reading(s).mode == Mode::Quoted(quote),
        script::reading(s).open,
        !word.contains(quote),
        quote == '"' ==> !word.contains('\\'),
    ensures
        script::reading(s + word) == grown(script::reading(s), word, Mode::Quoted(quote)),
    decreases word.len(),
{
    let r = script::reading(s);
    if word.len() == 0 {
        assert(s + word =~= s);
        assert(r.word + word =~= r.word);
    } else {
        let before = word.drop_last();
        assert(word.contains(word[word.len() - 1]));
        assert forall|c: char| before.contains(c) implies word.contains(c) by {
            let i = choose|i: int| 0 <= i < before.len() && before[i] == c;
            assert(word[i] == c);
        }
        lemma_between(s, before, quote);
        assert(s + word =~= (s + before).push(word.last()));
        lemma_next(s + before, word.last());
        assert((r.word + before).push(word.last()) =~= r.word + word);
    }
}

proof fn lemma_escaped(s: Seq<char>, word: Seq<char>)
    requires
        script::reading(s).mode is Plain || (script::reading(s).mode == Mode::Quoted('"')
            && script::reading(s).open),
    ensures
        word.len() > 0 || script::reading(s).open ==> script::reading(s + escaped(word)) == grown(
            script::reading(s),
            word,
            script::reading(s).mode,
        ),
    decreases word.len(),
{
    let r = script::reading(s);
    if word.len() == 0 {
        assert(s + escaped(word) =~= s);
        assert(r.word + word =~= r.word);
    } else {
        let before = word.drop_last();
        lemma_escaped(s, before);
        let t = s + escaped(before);
        assert(s + escaped(word) =~= t.push('\\').push(word.last()));
        lemma_next(t, '\\');
        lemma_next(t.push('\\'), word.last());
        assert((r.word + before).push(word.last()) =~= r.word + word);
        if before.len() == 0 {
            assert(t =~= s);
        }
    }
}

proof fn lemma_written(s: Seq<char>, word: Seq<char>, form: Form)
    requires
        script::reading(s).mode is Plain,
        can_be_written(word, form),
    ensures
        script::reading(s + written(word, form)) == grown(script::reading(s), word, Mode::Plain),
{
    let r = script::reading(s);
    match form {
        Form::Bare => lemma_bare(s, word),
        Form::Single => {
            lemma_next(s, '\'');
            lemma_between(s.push('\''), word, '\'');
            lemma_next(s.push('\'') + word, '\'');
            assert(s + written(word, form) =~= (s.push('\'') + word).push('\''));
        },
        Form::Double => {
            lemma_next(s, '"');
            lemma_between(s.push('"'), word, '"');
            lemma_next(s.push('"') + word, '"');
            assert(s + written(word, form) =~= (s.push('"') + word).push('"'));
        },
        Form::Escaped => lemma_escaped(s, word),
        Form::DoubleEscaped => {
            lemma_next(s, '"');
            lemma_escaped(s.push('"'), word);
            lemma_next(s.push('"') + escaped(word), '"');
            assert(s + written(word, form) =~= (s.push('"') + escaped(word)).push('"'));
        },
    }
}

/// Words in any forms, each with a space behind it.
pub open spec fn line_of(words: Seq<(Seq<char>, Form)>, space: char) -> Seq<char>
    decreases words.len(),
{
    if words.len() == 0 {
        Seq::empty()
    } else {
        (line_of(words.drop_last(), space) + written(words.last().0, words.last().1)).push(space)
    }
}

/// The words themselves.
pub open spec fn words_alone(words: Seq<(Seq<char>, Form)>) -> Seq<Seq<char>> {
    words.map_values(|w: (Seq<char>, Form)| w.0)
}

proof fn lemma_line(words: Seq<(Seq<char>, Form)>, space: char)
    requires
        text::is_white(space),
        forall|i: int|
            0 <= i < words.len() ==> can_be_written((#[trigger] words[i]).0, words[i].1),
    ensures
        script::reading(line_of(words, space)) == (Reading {
            words: words_alone(words),
            word: Seq::empty(),
            open: false,
            mode: Mode::Plain,
        }),
    decreases words.len(),
{
    if words.len() == 0 {
        assert(words_alone(words) =~= Seq::<Seq<char>>::empty());
    } else {
        let before = words.drop_last();
        let (word, form) = words.last();
        assert(can_be_written(words[words.len() - 1].0, words[words.len() - 1].1));
        assert forall|i: int| 0 <= i < before.len() implies can_be_written(
            (#[trigger] before[i]).0,
            before[i].1,
        ) by {
            assert(before[i] == words[i]);
        }
        lemma_line(before, space);
        lemma_written(line_of(before, space), word, form);
        lemma_next(line_of(before, space) + written(word, form), space);
        assert(Seq::<char>::empty() + word =~= word);
        assert(words_alone(before).push(word) =~= words_alone(words));
    }
}

/// Words in any forms, with white space between them, come out again as the
/// words that they are, whether or not white space stands behind the last.
pub proof fn words_come_out_as_written(words: Seq<(Seq<char>, Form)>, space: char)
    requires
        text::is_white(space),
        forall|i: int|
            0 <= i < words.len() ==> can_be_written((#[trigger] words[i]).0, words[i].1),
    ensures
        script::shell_words(line_of(words, space)) == words_alone(words),
        words.len() > 0 ==> script::shell_words(
            line_of(words.drop_last(), space) + written(words.last().0, words.last().1),
        ) == words_alone(words),
{
    lemma_line(words, space);
    if words.len() > 0 {
        let before = words.drop_last();
        let (word, form) = words.last();
        assert(can_be_written(words[words.len() - 1].0, words[words.len() - 1].1));
        assert forall|i: int| 0 <= i < before.len() implies can_be_written(
            (#[trigger] before[i]).0,
            before[i].1,
        ) by {
            assert(before[i] == words[i]);
        }
        lemma_line(before, space);
        lemma_written(line_of(before, space), word, form);
        assert(Seq::<char>::empty() + word =~= word);
        assert(words_alone(before).push(word) =~= words_alone(words));
    }
}

/// What is written without white space between is one word, though in two
/// forms.
pub proof fn forms_are_joined_to_a_word(a: Seq<char>, f: Form, b: Seq<char>, g: Form)
    requires
        can_be_written(a, f),
        can_be_written(b, g),
    ensures
        script::shell_words(written(a, f) + written(b, g)) == seq![a + b],
{
    let none = Seq::<char>::empty();
    lemma_written(none, a, f);
    assert(none + written(a, f) =~= written(a, f));
    lemma_written(written(a, f), b, g);
    assert(none + a =~= a);
    assert(Seq::<Seq<char>>::empty().push(a + b) =~= seq![a + b]);
}

/// A quote that is not closed goes on to the end.
pub proof fn an_open_quote_goes_to_the_end(word: Seq<char>)
    ensures
        !word.contains('\'') ==> script::shell_words(seq!['\''] + word) == seq![word],
        script::shell_words(seq!['"'] + escaped(word)) == seq![word],
{
    let none = Seq::<char>::empty();
    lemma_next(none, '\'');
    lemma_next(none, '"');
    assert(none.push('\'') =~= seq!['\'']);
    assert(none.push('"') =~= seq!['"']);
    if !word.contains('\'') {
        lemma_between(seq!['\''], word, '\'');
    }
    lemma_escaped(seq!['"'], word);
    assert(none + word =~= word);
    assert(Seq::<Seq<char>>::empty().push(word) =~= seq![word]);
}

// ---------------------------------------------------------------------------
// The command behind `env`
// ---------------------------------------------------------------------------

proof fn lemma_dashes(f: Seq<char>)
    ensures
        text::starts_with(f, "-"@) <==> f.len() > 0 && f[0] == '-',
        text::starts_with(f, "--"@) <==> f.len() > 1 && f[0] == '-' && f[1] == '-',
        f == "--"@ <==> f.len() == 2 && f[0] == '-' && f[1] == '-',
{
    reveal_strlit("-");
    reveal_strlit("--");
    words::standing_is_by_characters(f, "-"@, 0);
    words::standing_is_by_characters(f, "--"@, 0);
    assert("-"@[0] == '-');
    assert("--"@[0] == '-' && "--"@[1] == '-');
    if f.len() > 0 && f[0] == '-' {
        assert forall|k: int| 0 <= k < "-"@.len() implies f[0 + k] == #[trigger] "-"@[k] by {}
    }
    if f.len() > 1 && f[0] == '-' && f[1] == '-' {
        assert forall|k: int| 0 <= k < "--"@.len() implies f[0 + k] == #[trigger] "--"@[k] by {}
        if f.len() == 2 {
            assert(f =~= "--"@);
        }
    }
}

proof fn lemma_not_long(f: Seq<char>)
    requires
        f.len() < 2 || f[0] != '-' || f[1] != '-',
    ensures
        f != "--"@,
        !text::starts_with(f, "--split-string="@),
        f != "--unset"@,
        f != "--chdir"@,
        !text::starts_with(f, "--"@),
{
    lemma_dashes(f);
    reveal_strlit("--split-string=");
    reveal_strlit("--unset");
    reveal_strlit("--chdir");
    words::standing_is_by_characters(f, "--split-string="@, 0);
    if text::starts_with(f, "--split-string="@) {
        assert("--split-string="@[0] == '-' && "--split-string="@[1] == '-');
        assert(f[0] == '-' && f[1] == '-');
    }
    assert("--unset"@[0] == '-' && "--unset"@[1] == '-');
    assert("--chdir"@[0] == '-' && "--chdir"@[1] == '-');
}

proof fn lemma_front(f: Seq<char>, rest: Seq<Seq<char>>)
    ensures
        (seq![f] + rest)[0] == f,
        (seq![f] + rest).drop_first() == rest,
        rest.len() > 0 ==> (seq![f] + rest).skip(2) == rest.skip(1),
        (seq![f] + rest).len() == rest.len() + 1,
{
    let all = seq![f] + rest;
    assert(all.drop_first() =~= rest);
    if rest.len() > 0 {
        assert(all.skip(2) =~= rest.skip(1));
    }
}

/// The first field that is neither an option nor an assignment is the command.
pub proof fn the_first_plain_field_is_the_command(f: Seq<char>, rest: Seq<Seq<char>>)
    requires
        !f.contains('='),
        f.len() < 2 || f[0] != '-',
    ensures
        script::command_in(seq![f] + rest) == f,
        script::command_in(Seq::empty()).len() == 0,
{
    lemma_front(f, rest);
    lemma_not_long(f);
    lemma_dashes(f);
}

/// An option that is spelled out and asks for nothing changes nothing in what
/// the fields behind it name.
pub proof fn long_options_are_passed_over(f: Seq<char>, rest: Seq<Seq<char>>)
    requires
        f.len() > 2,
        f[0] == '-',
        f[1] == '-',
        f != "--unset"@,
        f != "--chdir"@,
        !text::starts_with(f, "--split-string="@),
    ensures
        script::command_in(seq![f] + rest) == script::command_in(rest),
{
    lemma_front(f, rest);
    lemma_dashes(f);
}

/// `--unset` and `--chdir` take the field behind them.
pub proof fn values_are_passed_over(value: Seq<char>, rest: Seq<Seq<char>>)
    ensures
        script::command_in(seq!["--unset"@, value] + rest) == script::command_in(rest),
        script::command_in(seq!["--chdir"@, value] + rest) == script::command_in(rest),
        script::command_in(seq!["--unset"@]).len() == 0,
        script::command_in(seq!["--chdir"@]).len() == 0,
{
    reveal_strlit("--unset");
    reveal_strlit("--chdir");
    reveal_strlit("--split-string=");
    lemma_dashes("--unset"@);
    lemma_dashes("--chdir"@);
    words::standing_is_by_characters("--unset"@, "--split-string="@, 0);
    words::standing_is_by_characters("--chdir"@, "--split-string="@, 0);
    let u = seq!["--unset"@, value] + rest;
    let c = seq!["--chdir"@, value] + rest;
    assert(u[0] == "--unset"@ && u.skip(2) =~= rest);
    assert(c[0] == "--chdir"@ && c.skip(2) =~= rest);
    assert(seq!["--unset"@][0] == "--unset"@);
    assert(seq!["--chdir"@][0] == "--chdir"@);
}

/// The words of `--split-string=` stand in its place.
pub proof fn a_split_string_stands_for_its_words(line: Seq<char>, rest: Seq<Seq<char>>)
    ensures
        script::command_in(seq!["--split-string="@ + line] + rest) == script::command_in(
            script::shell_words(line) + rest,
        ),
{
    let f = "--split-string="@ + line;
    reveal_strlit("--split-string=");
    reveal_strlit("--");
    lemma_front(f, rest);
    words::sums_hold_their_parts(Seq::empty(), "--split-string="@, line);
    assert(f.skip(15) =~= line);
    assert(f.len() >= 15);
}

/// Letters that ask for nothing.
pub open spec fn asks_for_nothing(s: Seq<char>) -> bool {
    !s.contains('S') && !s.contains('u') && !s.contains('C')
}

proof fn lemma_cluster(a: Seq<char>, b: Seq<char>)
    requires
        asks_for_nothing(a),
    ensures
        script::cluster(a + b) == script::cluster(b),
    decreases a.len(),
{
    if a.len() == 0 {
        assert(a + b =~= b);
    } else {
        let rest = a.drop_first();
        assert(a.contains(a[0]));
        assert forall|c: char| rest.contains(c) implies a.contains(c) by {
            let i = choose|i: int| 0 <= i < rest.len() && rest[i] == c;
            assert(a[i + 1] == c);
        }
        assert((a + b).drop_first() =~= rest + b);
        lemma_cluster(rest, b);
    }
}

/// Letters behind one dash: `S` makes what stands behind it a command line of
/// its own, `u` and `C` take what stands behind them or else the field that
/// follows, and the others ask for nothing.
pub proof fn letters_are_read_in_order(a: Seq<char>, b: Seq<char>, rest: Seq<Seq<char>>)
    requires
        asks_for_nothing(a),
        a.len() > 0 ==> a[0] != '-',
    ensures
        a.len() > 0 ==> script::command_in(seq![seq!['-'] + a] + rest) == script::command_in(rest),
        script::command_in(seq![seq!['-'] + a + seq!['S'] + b] + rest) == script::command_in(
            script::shell_words(b) + rest,
        ),
        b.len() > 0 ==> script::command_in(seq![seq!['-'] + a + seq!['u'] + b] + rest)
            == script::command_in(rest),
        b.len() > 0 ==> script::command_in(seq![seq!['-'] + a + seq!['C'] + b] + rest)
            == script::command_in(rest),
        rest.len() > 0 ==> script::command_in(seq![seq!['-'] + a + seq!['u']] + rest)
            == script::command_in(rest.skip(1)),
        rest.len() > 0 ==> script::command_in(seq![seq!['-'] + a + seq!['C']] + rest)
            == script::command_in(rest.skip(1)),
{
    let none = Seq::<char>::empty();
    let plain = seq!['-'] + a;
    lemma_cluster(a, none);
    assert(a + none =~= a);
    lemma_front(plain, rest);
    lemma_dashes(plain);
    if a.len() > 0 {
        assert(plain[1] == a[0]);
        lemma_not_long(plain);
        assert(plain.drop_first() =~= a);
    }
    lemma_letter(a, 'S', b, rest);
    lemma_letter(a, 'u', b, rest);
    lemma_letter(a, 'C', b, rest);
    lemma_letter(a, 'u', none, rest);
    lemma_letter(a, 'C', none, rest);
    assert((seq!['S'] + b).drop_first() =~= b);
    assert(seq!['-'] + a + seq!['u'] + none =~= seq!['-'] + a + seq!['u']);
    assert(seq!['-'] + a + seq!['C'] + none =~= seq!['-'] + a + seq!['C']);
}

proof fn lemma_letter(a: Seq<char>, letter: char, b: Seq<char>, rest: Seq<Seq<char>>)
    requires
        asks_for_nothing(a),
        a.len() > 0 ==> a[0] != '-',
        letter == 'S' || letter == 'u' || letter == 'C',
    ensures
        ({
            let f = seq!['-'] + a + seq![letter] + b;
            let all = seq![f] + rest;
            &&& all[0] == f && all.drop_first() == rest && all.len() == rest.len() + 1
            &&& rest.len() > 0 ==> all.skip(2) == rest.skip(1)
            &&& script::field_kind(f) == script::cluster(seq![letter] + b)
        }),
{
    let f = seq!['-'] + a + seq![letter] + b;
    lemma_front(f, rest);
    assert(f[0] == '-');
    assert(f[1] != '-') by {
        if a.len() > 0 {
            assert(f[1] == a[0]);
        } else {
            assert(f[1] == letter);
        }
    }
    lemma_not_long(f);
    lemma_dashes(f);
    assert(f.drop_first() =~= a + (seq![letter] + b));
    lemma_cluster(a, seq![letter] + b);
}

/// Behind `--` no field is an option: the first one that is no assignment is the
/// command.
pub proof fn options_end_at_two_dashes(
    pairs: Seq<Seq<char>>,
    f: Seq<char>,
    rest: Seq<Seq<char>>,
)
    requires
        forall|i: int| 0 <= i < pairs.len() ==> (#[trigger] pairs[i]).contains('='),
        !f.contains('='),
    ensures
        script::command_in(seq!["--"@] + (pairs + seq![f] + rest)) == f,
        script::command_in(seq!["--"@] + pairs).len() == 0,
{
    lemma_front("--"@, pairs + seq![f] + rest);
    lemma_front("--"@, pairs);
    lemma_operand(pairs, seq![f] + rest);
    lemma_operand(pairs, Seq::empty());
    assert(pairs + (seq![f] + rest) =~= pairs + seq![f] + rest);
    assert(pairs + Seq::<Seq<char>>::empty() =~= pairs);
    assert((seq![f] + rest)[0] == f);
}

proof fn lemma_operand(pairs: Seq<Seq<char>>, rest: Seq<Seq<char>>)
    requires
        forall|i: int| 0 <= i < pairs.len() ==> (#[trigger] pairs[i]).contains('='),
    ensures
        script::operand_in(pairs + rest) == script::operand_in(rest),
    decreases pairs.len(),
{
    if pairs.len() == 0 {
        assert(pairs + rest =~= rest);
    } else {
        assert(pairs[0].contains('='));
        assert((pairs + rest).drop_first() =~= pairs.drop_first() + rest);
        assert forall|i: int| 0 <= i < pairs.drop_first().len() implies (
        #[trigger] pairs.drop_first()[i]).contains('=') by {
            assert(pairs.drop_first()[i] == pairs[i + 1]);
        }
        lemma_operand(pairs.drop_first(), rest);
    }
}

/// The command behind `env` is looked for behind the first word of the line.
pub proof fn the_command_comes_behind_env(shebang: Seq<char>, first: Seq<char>, rest: Seq<Seq<char>>)
    ensures
        script::shell_words(shebang) == seq![first] + rest ==> script::command_of(shebang)
            == script::command_in(rest),
        script::shell_words(shebang).len() == 0 ==> script::command_of(shebang).len() == 0,
{
    lemma_front(first, rest);
}

// ---------------------------------------------------------------------------
// The first line
// ---------------------------------------------------------------------------

/// The first line of a file are the bytes before the first line feed, or all of
/// them where there is none.
pub proof fn the_first_line_ends_at_a_line_feed(a: Seq<u8>, b: Seq<u8>)
    requires
        !a.contains(10u8),
    ensures
        script::first_line(a + seq![10u8] + b) == a,
        script::first_line(a) == a,
    decreases a.len(),
{
    let all = a + seq![10u8] + b;
    if a.len() == 0 {
        assert(all[0] == 10);
        assert(a =~= Seq::<u8>::empty());
    } else {
        let rest = a.drop_first();
        assert(a.contains(a[0]));
        assert(!rest.contains(10u8)) by {
            if rest.contains(10u8) {
                let i = choose|i: int| 0 <= i < rest.len() && rest[i] == 10u8;
                assert(a[i + 1] == 10u8);
            }
        }
        the_first_line_ends_at_a_line_feed(rest, b);
        assert(all.drop_first() =~= rest + seq![10u8] + b);
        assert(seq![a[0]] + rest =~= a);
    }
}

/// The mark is taken off, as often as it stands there.
pub proof fn the_mark_is_taken_off(s: Seq<char>)
    ensures
        script::unmarked(seq!['#', '!'] + s) == script::unmarked(s),
        s.len() < 2 || s[0] != '#' || s[1] != '!' ==> script::unmarked(s) == s,
{
    assert((seq!['#', '!'] + s).skip(2) =~= s);
}

/// The first line names the interpreter by its first word. Where the name of
/// that is `env`, it is the command behind it, which is looked for on the path.
pub proof fn the_first_line_names_the_interpreter(line: Seq<char>)
    ensures
        ({
            let shebang = text::trimmed(script::unmarked(line));
            let first = text::first_word(shebang);
            let named = script::named_by(line);
            &&& path::file_name(first) != Some("env"@) ==> named == (ShebangView {
                command: first,
                via_env: false,
            })
            &&& path::file_name(first) == Some("env"@) ==> named == (ShebangView {
                command: script::command_of(shebang),
                via_env: true,
            })
        }),
{
}

/// Of a script, the first line counts and nothing else.
pub proof fn only_the_first_line_counts(a: Seq<u8>, b: Seq<u8>)
    requires
        !a.contains(10u8),
    ensures
        script::script_of(a + seq![10u8] + b) == script::named_by(text::utf8_lossy(a)),
        script::script_of(a) == script::named_by(text::utf8_lossy(a)),
{
    the_first_line_ends_at_a_line_feed(a, b);
}

/// What is said of a script: which interpreter it names, whether it may be
/// executed, whether the interpreter is there, what the environment holds, and
/// that `env` looks for the interpreter on the path.
pub proof fn the_parts_of_a_script_analysis(
    path: Seq<char>,
    shebang: ShebangView,
    facts: Option<FileFacts>,
    path_var: Option<Seq<char>>,
    seen: Seq<Option<FileFacts>>,
    env: EnvironmentView,
)
    ensures
        ({
            let a = script::script_analysis(path, shebang, facts, path_var, seen, env);
            &&& a.path == path
            &&& a.kind == (KindView::Script { interpreter: shebang.command })
            &&& a.not_a_program is None && a.arch is None
            &&& a.permissions == host::permissions_of(path, facts)
            &&& a.interpreter == Some(
                host::interpreter_found(shebang.command, shebang.via_env, path_var, seen),
            )
            &&& a.libraries.len() == 0 && a.unresolved.len() == 0 && a.version_problems.len() == 0
            &&& a.env == host::env_notes(env)
            &&& !shebang.via_env ==> a.notes.len() == 0
            &&& shebang.via_env ==> a.notes.len() > 0 && a.notes[0]
                == "the shebang uses `env`, so the interpreter is resolved through PATH"@
            &&& shebang.via_env && !text::any_white(shebang.command) ==> a.notes.len() == 1
            &&& shebang.via_env && text::any_white(shebang.command) ==> a.notes.len() == 2
                && a.notes[1] == "`env` treats `"@ + shebang.command
                + "` as one command name; a shebang argument with spaces needs `-S` and no quoting"@
        }),
{
}

} // verus!
