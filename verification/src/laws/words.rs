//! Text: what splitting, trimming, replacing and writing numbers give.

use vstd::prelude::*;
use crate::path;
use crate::text;

verus! {

// ---------------------------------------------------------------------------
// Splitting
// ---------------------------------------------------------------------------

/// Pieces, put together with a character between them.
pub open spec fn joined_by(pieces: Seq<Seq<char>>, c: char) -> Seq<char>
    decreases pieces.len(),
{
    if pieces.len() == 0 {
        Seq::empty()
    } else if pieces.len() == 1 {
        pieces[0]
    } else {
        pieces[0].push(c) + joined_by(pieces.drop_first(), c)
    }
}

/// A text that is split at a character is made up of pieces without it, which
/// put together with it give the text again. There is one piece at least.
pub proof fn splitting_loses_nothing(s: Seq<char>, c: char)
    ensures
        text::split_on(s, c).len() > 0,
        joined_by(text::split_on(s, c), c) == s,
        forall|i: int|
            0 <= i < text::split_on(s, c).len() ==> !(#[trigger] text::split_on(s, c)[i]).contains(
                c,
            ),
    decreases s.len(),
{
    let k = text::first_of(s, c);
    let all = text::split_on(s, c);
    text::lemma_first_of(s, c);
    if 0 <= k < s.len() {
        let rest = text::split_on(s.skip(k + 1), c);
        splitting_loses_nothing(s.skip(k + 1), c);
        assert(all == seq![s.take(k)] + rest);
        assert(all.drop_first() =~= rest);
        assert(joined_by(all, c) =~= s) by {
            assert(s =~= s.take(k).push(c) + s.skip(k + 1));
        }
        assert forall|i: int| 0 <= i < all.len() implies !(#[trigger] all[i]).contains(c) by {
            if i > 0 {
                assert(all[i] == rest[i - 1]);
            } else if all[0].contains(c) {
                let j = choose|j: int| 0 <= j < all[0].len() && all[0][j] == c;
                assert(s[j] == c);
            }
        }
    } else {
        assert(all == seq![s]);
        if s.contains(c) {
            let j = choose|j: int| 0 <= j < s.len() && s[j] == c;
            assert(s[j] != c);
        }
    }
}

/// Pieces without a character come out again when they are put together with it
/// and split.
pub proof fn pieces_come_out_again(pieces: Seq<Seq<char>>, c: char)
    requires
        pieces.len() > 0,
        forall|i: int| 0 <= i < pieces.len() ==> !(#[trigger] pieces[i]).contains(c),
    ensures
        text::split_on(joined_by(pieces, c), c) == pieces,
    decreases pieces.len(),
{
    let s = joined_by(pieces, c);
    let first = pieces[0];
    let k = text::first_of(s, c);
    text::lemma_first_of(s, c);
    if pieces.len() == 1 {
        if k < s.len() {
            assert(first.contains(first[k]));
        }
        assert(pieces =~= seq![s]);
    } else {
        let rest = pieces.drop_first();
        assert(s[first.len() as int] == c);
        assert(k == first.len()) by {
            if k < first.len() {
                assert(s[k] == first[k]);
                assert(first.contains(first[k]));
            }
        }
        assert(s.take(k) =~= first);
        assert(s.skip(k + 1) =~= joined_by(rest, c));
        pieces_come_out_again(rest, c);
        assert(pieces =~= seq![first] + rest);
    }
}

/// A text is parted once at the first place where another stands: what is in
/// front does not reach into a second one, and the parts put together with it
/// give the text again.
pub proof fn parting_is_at_the_first_place(s: Seq<char>, p: Seq<char>)
    ensures
        text::split_once(s, p) is Some <==> text::contains_text(s, p),
        text::split_once(s, p) matches Some((a, b)) ==> a + p + b == s && forall|j: int|
            0 <= j < a.len() ==> !#[trigger] text::occurs_at(s, p, j),
{
    text::lemma_first_at(s, p);
    match text::first_at(s, p) {
        Some(k) => {
            assert(s.take(k) + p + s.skip(k + p.len()) =~= s) by {
                assert(s.subrange(k, k + p.len()) =~= p);
                assert forall|i: int| k <= i < k + p.len() implies s[i] == p[i - k] by {
                    assert(s.subrange(k, k + p.len())[i - k] == s[i]);
                }
            }
        },
        None => {},
    }
}

/// A text stands at a place exactly where each of its characters does.
pub proof fn standing_is_by_characters(s: Seq<char>, p: Seq<char>, i: int)
    ensures
        text::occurs_at(s, p, i) <==> 0 <= i && i + p.len() <= s.len() && forall|k: int|
            0 <= k < p.len() ==> s[i + k] == #[trigger] p[k],
{
    if 0 <= i && i + p.len() <= s.len() {
        let part = s.subrange(i, i + p.len());
        if part == p {
            assert forall|k: int| 0 <= k < p.len() implies s[i + k] == #[trigger] p[k] by {
                assert(part[k] == s[i + k]);
            }
        }
        if forall|k: int| 0 <= k < p.len() ==> s[i + k] == #[trigger] p[k] {
            assert(part =~= p);
        }
    }
}

/// What is put in front of a text is what it begins with, what is put behind it
/// is what it ends with, and both hold it.
pub proof fn sums_hold_their_parts(a: Seq<char>, p: Seq<char>, b: Seq<char>)
    ensures
        text::starts_with(p + b, p),
        text::ends_with(a + p, p),
        text::contains_text(a + p + b, p),
{
    let s = a + p + b;
    assert((p + b).subrange(0, p.len() as int) =~= p);
    assert((a + p).subrange(a.len() as int, (a.len() + p.len()) as int) =~= p);
    assert(s.subrange(a.len() as int, (a.len() + p.len()) as int) =~= p);
    assert(text::occurs_at(s, p, a.len() as int));
}

/// What a text begins with, ends with or holds is a part of it.
pub proof fn what_stands_is_a_part(s: Seq<char>, p: Seq<char>)
    ensures
        text::starts_with(s, p) ==> p.len() <= s.len() && s.take(p.len() as int) == p,
        text::ends_with(s, p) ==> p.len() <= s.len() && s.skip(s.len() - p.len()) == p,
        text::contains_text(s, p) ==> exists|i: int|
            0 <= i && i + p.len() <= s.len() && #[trigger] s.subrange(i, i + p.len()) == p,
{
    if text::starts_with(s, p) {
        assert(s.take(p.len() as int) =~= s.subrange(0, p.len() as int));
    }
    if text::ends_with(s, p) {
        assert(s.skip(s.len() - p.len()) =~= s.subrange(s.len() - p.len(), s.len() as int));
    }
    if text::contains_text(s, p) {
        let i = choose|i: int| text::occurs_at(s, p, i);
        assert(s.subrange(i, i + p.len()) == p);
    }
}

/// The place behind the last of a character: nothing but other characters
/// comes behind it.
pub proof fn nothing_alike_comes_behind_the_last(s: Seq<char>, c: char)
    ensures
        0 <= text::after_last(s, c) <= s.len(),
        text::after_last(s, c) > 0 ==> s[text::after_last(s, c) - 1] == c,
        !s.skip(text::after_last(s, c)).contains(c),
    decreases s.len(),
{
    let n = text::after_last(s, c);
    if s.len() > 0 && s.last() != c {
        let front = s.drop_last();
        nothing_alike_comes_behind_the_last(front, c);
        assert(n > 0 ==> front[n - 1] == s[n - 1]);
        if s.skip(n).contains(c) {
            let k = choose|k: int| 0 <= k < s.skip(n).len() && s.skip(n)[k] == c;
            assert(front.skip(n)[k] == c);
            assert(front.skip(n).contains(c));
        }
    } else {
        assert(s.skip(n).len() == 0);
    }
}

// ---------------------------------------------------------------------------
// Replacing
// ---------------------------------------------------------------------------

/// Where a text does not stand, replacing it changes nothing.
pub proof fn nothing_is_replaced_without_it(s: Seq<char>, p: Seq<char>, by: Seq<char>)
    requires
        p.len() > 0,
        !text::contains_text(s, p),
    ensures
        text::replaced(s, p, by) == s,
    decreases s.len(),
{
    if s.len() > 0 {
        let rest = s.drop_first();
        if text::contains_text(rest, p) {
            let i = choose|i: int| text::occurs_at(rest, p, i);
            assert(s.subrange(i + 1, i + 1 + p.len()) =~= rest.subrange(i, i + p.len()));
            assert(text::occurs_at(s, p, i + 1));
        }
        nothing_is_replaced_without_it(rest, p, by);
        assert(!text::occurs_at(s, p, 0));
        assert(seq![s[0]] + rest =~= s);
    }
}

/// The first place where a text stands gives way to the other text, and what
/// comes behind it is treated in the same way.
pub proof fn the_first_gives_way(a: Seq<char>, p: Seq<char>, b: Seq<char>, by: Seq<char>)
    requires
        p.len() > 0,
        forall|j: int| 0 <= j < a.len() ==> !#[trigger] text::occurs_at(a + p + b, p, j),
    ensures
        text::replaced(a + p + b, p, by) == a + by + text::replaced(b, p, by),
    decreases a.len(),
{
    let s = a + p + b;
    if a.len() == 0 {
        assert(s =~= p + b);
        assert(s.subrange(0, p.len() as int) =~= p);
        assert(s.skip(p.len() as int) =~= b);
        assert(a + by =~= by);
    } else {
        let rest = a.drop_first();
        assert(s.drop_first() =~= rest + p + b);
        assert(!text::occurs_at(s, p, 0));
        assert forall|j: int| 0 <= j < rest.len() implies !#[trigger] text::occurs_at(
            rest + p + b,
            p,
            j,
        ) by {
            assert(!text::occurs_at(s, p, j + 1));
            assert(s.subrange(j + 1, j + 1 + p.len()) =~= (rest + p + b).subrange(j, j + p.len()));
        }
        the_first_gives_way(rest, p, b, by);
        assert(seq![s[0]] + (rest + by + text::replaced(b, p, by)) =~= a + by + text::replaced(
            b,
            p,
            by,
        ));
    }
}

// ---------------------------------------------------------------------------
// Trimming
// ---------------------------------------------------------------------------

/// All of it is white space.
pub open spec fn all_white(s: Seq<char>) -> bool {
    forall|i: int| 0 <= i < s.len() ==> text::is_white(#[trigger] s[i])
}

proof fn lemma_trim_start(s: Seq<char>)
    ensures
        exists|a: Seq<char>| #[trigger] all_white(a) && s == a + text::trim_start(s),
        text::trim_start(s).len() > 0 ==> !text::is_white(text::trim_start(s)[0]),
    decreases s.len(),
{
    if s.len() > 0 && text::is_white(s[0]) {
        lemma_trim_start(s.drop_first());
        let a = choose|a: Seq<char>| #[trigger]
            all_white(a) && s.drop_first() == a + text::trim_start(s.drop_first());
        let b = seq![s[0]] + a;
        assert(all_white(b)) by {
            assert forall|i: int| 0 <= i < b.len() implies text::is_white(#[trigger] b[i]) by {
                if i > 0 {
                    assert(b[i] == a[i - 1]);
                }
            }
        }
        assert(s =~= seq![s[0]] + s.drop_first());
        assert(s =~= b + text::trim_start(s));
    } else {
        assert(all_white(Seq::<char>::empty()));
        assert(s =~= Seq::<char>::empty() + s);
    }
}

proof fn lemma_trim_end(s: Seq<char>)
    ensures
        exists|b: Seq<char>| #[trigger] all_white(b) && s == text::trim_end(s) + b,
        text::trim_end(s).len() > 0 ==> !text::is_white(text::trim_end(s).last())
            && text::trim_end(s)[0] == s[0],
    decreases s.len(),
{
    if s.len() > 0 && text::is_white(s.last()) {
        let front = s.drop_last();
        lemma_trim_end(front);
        let b = choose|b: Seq<char>| #[trigger] all_white(b) && front == text::trim_end(front) + b;
        let c = b.push(s.last());
        assert(all_white(c)) by {
            assert forall|i: int| 0 <= i < c.len() implies text::is_white(#[trigger] c[i]) by {
                if i < b.len() {
                    assert(c[i] == b[i]);
                }
            }
        }
        assert(s =~= front.push(s.last()));
        assert(s =~= text::trim_end(s) + c);
    } else {
        assert(all_white(Seq::<char>::empty()));
        assert(s =~= s + Seq::<char>::empty());
    }
}

/// A trimmed text is what is left without the white space on both sides: it
/// neither begins nor ends with any, and what was taken away is nothing else.
pub proof fn trimming_takes_white_space_only(s: Seq<char>)
    ensures
        exists|a: Seq<char>, b: Seq<char>|
            #![trigger all_white(a), all_white(b)]
            all_white(a) && all_white(b) && s == a + text::trimmed(s) + b,
        text::trimmed(s).len() > 0 ==> !text::is_white(text::trimmed(s)[0]) && !text::is_white(
            text::trimmed(s).last(),
        ),
{
    let m = text::trim_start(s);
    lemma_trim_start(s);
    lemma_trim_end(m);
    let a = choose|a: Seq<char>| #[trigger] all_white(a) && s == a + m;
    let b = choose|b: Seq<char>| #[trigger] all_white(b) && m == text::trim_end(m) + b;
    assert(a + text::trimmed(s) + b =~= s);
}

/// White space is the tab, the line feed, the vertical tab, the form feed, the
/// carriage return and the space, and beyond ASCII what has the property
/// `White_Space`.
pub proof fn white_space_is_known(c: char)
    ensures
        (c as u32) < 0x80 ==> (text::is_white(c) <==> c == '\t' || c == '\n' || c as u32 == 0x0b
            || c as u32 == 0x0c || c == '\r' || c == ' '),
        (c as u32) >= 0x80 ==> (text::is_white(c) <==> c == '\u{85}' || c == '\u{a0}' || c
            == '\u{1680}' || ('\u{2000}' <= c <= '\u{200a}') || c == '\u{2028}' || c == '\u{2029}'
            || c == '\u{202f}' || c == '\u{205f}' || c == '\u{3000}'),
        text::is_control(c) <==> (c as u32) < 0x20 || ('\u{7f}' <= c <= '\u{9f}'),
{
}

/// Something is white space in it.
pub proof fn the_first_word_ends_before_white_space(s: Seq<char>)
    ensures
        exists|a: Seq<char>, b: Seq<char>|
            #![trigger all_white(a), a + text::first_word(s) + b]
            all_white(a) && s == a + text::first_word(s) + b && (b.len() > 0 ==> text::is_white(
                b[0],
            )),
        forall|i: int|
            0 <= i < text::first_word(s).len() ==> !text::is_white(
                #[trigger] text::first_word(s)[i],
            ),
        text::first_word(s).len() == 0 <==> all_white(s),
{
    let m = text::trim_start(s);
    lemma_trim_start(s);
    lemma_until_white(m);
    let a = choose|a: Seq<char>| #[trigger] all_white(a) && s == a + m;
    let b = choose|b: Seq<char>|
        m == #[trigger] (text::until_white(m) + b) && (b.len() > 0 ==> text::is_white(b[0]));
    assert(a + text::first_word(s) + b =~= s);
    if all_white(s) && m.len() > 0 {
        assert(s[a.len() as int] == m[0]);
    }
    if text::first_word(s).len() == 0 {
        assert(m =~= b);
        assert(m.len() == 0);
        assert(s =~= a);
    }
}

proof fn lemma_until_white(s: Seq<char>)
    ensures
        exists|b: Seq<char>|
            s == #[trigger] (text::until_white(s) + b) && (b.len() > 0 ==> text::is_white(b[0])),
        forall|i: int|
            0 <= i < text::until_white(s).len() ==> !text::is_white(
                #[trigger] text::until_white(s)[i],
            ),
    decreases s.len(),
{
    let w = text::until_white(s);
    if s.len() == 0 || text::is_white(s[0]) {
        assert(s =~= w + s);
    } else {
        let rest = s.drop_first();
        let v = text::until_white(rest);
        lemma_until_white(rest);
        let b = choose|b: Seq<char>|
            rest == #[trigger] (v + b) && (b.len() > 0 ==> text::is_white(b[0]));
        assert(s =~= seq![s[0]] + rest);
        assert(s =~= w + b);
        assert forall|i: int| 0 <= i < w.len() implies !text::is_white(#[trigger] w[i]) by {
            if i > 0 {
                assert(w[i] == v[i - 1]);
            }
        }
    }
}

/// Stripping a character takes it away at both ends, as often as it stands
/// there, and nothing else.
pub proof fn stripping_takes_one_character_only(s: Seq<char>, c: char)
    ensures
        exists|a: Seq<char>, b: Seq<char>|
            #![trigger is_all(a, c), is_all(b, c)]
            is_all(a, c) && is_all(b, c) && s == a + text::stripped(s, c) + b,
        text::stripped(s, c).len() > 0 ==> text::stripped(s, c)[0] != c && text::stripped(s, c).last()
            != c,
{
    let m = text::strip_start(s, c);
    lemma_strip_start(s, c);
    lemma_strip_end(m, c);
    let a = choose|a: Seq<char>| #[trigger] is_all(a, c) && s == a + m;
    let b = choose|b: Seq<char>| #[trigger] is_all(b, c) && m == text::strip_end(m, c) + b;
    assert(a + text::stripped(s, c) + b =~= s);
}

/// It is made up of one character.
pub open spec fn is_all(s: Seq<char>, c: char) -> bool {
    forall|i: int| 0 <= i < s.len() ==> #[trigger] s[i] == c
}

proof fn lemma_strip_start(s: Seq<char>, c: char)
    ensures
        exists|a: Seq<char>| #[trigger] is_all(a, c) && s == a + text::strip_start(s, c),
        text::strip_start(s, c).len() > 0 ==> text::strip_start(s, c)[0] != c,
    decreases s.len(),
{
    if s.len() > 0 && s[0] == c {
        lemma_strip_start(s.drop_first(), c);
        let a = choose|a: Seq<char>| #[trigger]
            is_all(a, c) && s.drop_first() == a + text::strip_start(s.drop_first(), c);
        let b = seq![s[0]] + a;
        assert(is_all(b, c)) by {
            assert forall|i: int| 0 <= i < b.len() implies #[trigger] b[i] == c by {
                if i > 0 {
                    assert(b[i] == a[i - 1]);
                }
            }
        }
        assert(s =~= seq![s[0]] + s.drop_first());
        assert(s =~= b + text::strip_start(s, c));
    } else {
        assert(is_all(Seq::<char>::empty(), c));
        assert(s =~= Seq::<char>::empty() + s);
    }
}

proof fn lemma_strip_end(s: Seq<char>, c: char)
    ensures
        exists|b: Seq<char>| #[trigger] is_all(b, c) && s == text::strip_end(s, c) + b,
        text::strip_end(s, c).len() > 0 ==> text::strip_end(s, c).last() != c && text::strip_end(
            s,
            c,
        )[0] == s[0],
    decreases s.len(),
{
    if s.len() > 0 && s.last() == c {
        let front = s.drop_last();
        lemma_strip_end(front, c);
        let b = choose|b: Seq<char>| #[trigger]
            is_all(b, c) && front == text::strip_end(front, c) + b;
        let d = b.push(s.last());
        assert(is_all(d, c)) by {
            assert forall|i: int| 0 <= i < d.len() implies #[trigger] d[i] == c by {
                if i < b.len() {
                    assert(d[i] == b[i]);
                }
            }
        }
        assert(s =~= front.push(s.last()));
        assert(s =~= text::strip_end(s, c) + d);
    } else {
        assert(is_all(Seq::<char>::empty(), c));
        assert(s =~= s + Seq::<char>::empty());
    }
}

// ---------------------------------------------------------------------------
// Numbers
// ---------------------------------------------------------------------------

/// The value of digits in a base, the most significant one first.
pub open spec fn value_in(s: Seq<char>, base: nat) -> nat
    decreases s.len(),
{
    if s.len() == 0 {
        0
    } else {
        base * value_in(s.drop_last(), base) + (s.last() as u32 - '0' as u32) as nat
    }
}

/// They are digits of a base.
pub open spec fn are_digits(s: Seq<char>, base: nat) -> bool {
    s.len() > 0 && forall|i: int|
        0 <= i < s.len() ==> '0' <= #[trigger] s[i] && (s[i] as int) < '0' as int + base
}

/// A number is written in decimal digits that have its value, without a zero in
/// front.
pub proof fn decimals_have_their_value(n: nat)
    ensures
        are_digits(text::decimal(n), 10),
        value_in(text::decimal(n), 10) == n,
        text::decimal(n).len() > 1 ==> text::decimal(n)[0] != '0',
    decreases n,
{
    let d = text::decimal(n);
    reveal_with_fuel(value_in, 2);
    if n < 10 {
        assert(d.drop_last() =~= Seq::<char>::empty());
        assert(d.last() as u32 == 48 + n);
    } else {
        let front = text::decimal(n / 10);
        decimals_have_their_value(n / 10);
        assert(d.drop_last() =~= front);
        assert(d.last() as u32 == 48 + n % 10);
        assert forall|i: int| 0 <= i < d.len() implies '0' <= #[trigger] d[i] && (d[i] as int) < '0' as int + 10 by {
            if i < front.len() {
                assert(d[i] == front[i]);
            }
        }
        assert(d[0] == front[0]);
        if front.len() == 1 && front[0] == '0' {
            reveal_with_fuel(value_in, 2);
            assert(front.drop_last() =~= Seq::<char>::empty());
            assert(value_in(front, 10) == 0);
        }
    }
}

proof fn lemma_octal(n: nat)
    ensures
        are_digits(text::octal(n), 8),
        value_in(text::octal(n), 8) == n,
        n < 8 ==> text::octal(n).len() == 1,
        8 <= n < 64 ==> text::octal(n).len() == 2,
        64 <= n < 512 ==> text::octal(n).len() == 3,
        512 <= n ==> text::octal(n).len() >= 4,
    decreases n,
{
    let d = text::octal(n);
    reveal_with_fuel(value_in, 2);
    if n < 8 {
        assert(d.drop_last() =~= Seq::<char>::empty());
        assert(d.last() as u32 == 48 + n);
    } else {
        let front = text::octal(n / 8);
        lemma_octal(n / 8);
        assert(d.drop_last() =~= front);
        assert(d.last() as u32 == 48 + n % 8);
        assert forall|i: int| 0 <= i < d.len() implies '0' <= #[trigger] d[i] && (d[i] as int) < '0' as int + 8 by {
            if i < front.len() {
                assert(d[i] == front[i]);
            }
        }
    }
}

proof fn lemma_zeros_in_front(zeros: Seq<char>, s: Seq<char>, base: nat)
    requires
        is_all(zeros, '0'),
    ensures
        value_in(zeros + s, base) == value_in(s, base),
    decreases s.len(), zeros.len(),
{
    let all = zeros + s;
    if s.len() > 0 {
        assert(all.drop_last() =~= zeros + s.drop_last());
        lemma_zeros_in_front(zeros, s.drop_last(), base);
    } else {
        assert(all =~= zeros);
        assert(s =~= Seq::<char>::empty());
        if zeros.len() > 0 {
            let front = zeros.drop_last();
            assert forall|i: int| 0 <= i < front.len() implies #[trigger] front[i] == '0' by {
                assert(zeros[i] == '0');
            }
            assert(zeros[zeros.len() - 1] == '0');
            lemma_zeros_in_front(front, s, base);
            assert(front + s =~= front);
            assert(base * 0 == 0) by (nonlinear_arith);
        }
    }
}

/// Permission bits are written in octal digits that have their value, and in
/// four of them at least.
pub proof fn modes_have_their_value(n: nat)
    ensures
        are_digits(text::octal4(n), 8),
        value_in(text::octal4(n), 8) == n,
        text::octal4(n).len() >= 4,
        n < 4096 ==> text::octal4(n).len() == 4,
{
    reveal_strlit("000");
    reveal_strlit("00");
    reveal_strlit("0");
    lemma_octal(n);
    let o = text::octal(n);
    let d = text::octal4(n);
    if n >= 512 {
        if n < 4096 {
            lemma_octal(n / 8);
        }
    } else {
        let zeros = if n < 8 {
            "000"@
        } else if n < 64 {
            "00"@
        } else {
            "0"@
        };
        lemma_zeros_in_front(zeros, o, 8);
        assert forall|i: int| 0 <= i < d.len() implies '0' <= #[trigger] d[i] && (d[i] as int) < '0' as int + 8 by {
            if i >= zeros.len() {
                assert(d[i] == o[i - zeros.len()]);
            }
        }
    }
}

/// A text is read as a number exactly where it is made up of decimal digits,
/// with a plus sign in front or none, and its value fits.
pub proof fn numbers_are_read_by_their_digits(s: Seq<char>, n: u32)
    ensures
        text::number(s) == Some(n) <==> ({
            let digits = if s.len() > 0 && s[0] == '+' {
                s.drop_first()
            } else {
                s
            };
            are_digits(digits, 10) && value_in(digits, 10) == n
        }),
{
    let digits = if s.len() > 0 && s[0] == '+' {
        s.drop_first()
    } else {
        s
    };
    lemma_same_value(digits);
    if are_digits(digits, 10) {
        assert forall|i: int| 0 <= i < digits.len() implies text::is_digit(#[trigger] digits[i]) by {
            assert((digits[i] as int) < 58);
        }
    }
    if text::unsigned(digits) is Some {
        assert forall|i: int| 0 <= i < digits.len() implies '0' <= #[trigger] digits[i] && (digits[i] as int) < '0' as int + 10 by {
            assert(text::is_digit(digits[i]));
        }
    }
}

proof fn lemma_same_value(s: Seq<char>)
    ensures
        value_in(s, 10) == text::digits_value(s),
    decreases s.len(),
{
    if s.len() > 0 {
        lemma_same_value(s.drop_last());
    }
}

// ---------------------------------------------------------------------------
// Order and case
// ---------------------------------------------------------------------------

/// A text comes before another where they differ first in a smaller character,
/// or where it is the front of the other.
pub proof fn texts_are_ordered_by_the_first_difference(a: Seq<char>, b: Seq<char>)
    ensures
        text::text_less(a, b) <==> exists|k: int| #[trigger] differ_first_at(a, b, k),
    decreases a.len(),
{
    if a.len() > 0 && b.len() > 0 && a[0] == b[0] {
        let x = a.drop_first();
        let y = b.drop_first();
        texts_are_ordered_by_the_first_difference(x, y);
        if text::text_less(a, b) {
            let k = choose|k: int| #[trigger] differ_first_at(x, y, k);
            assert(a.take(k + 1) =~= seq![a[0]] + x.take(k));
            assert(b.take(k + 1) =~= seq![b[0]] + y.take(k));
            assert(differ_first_at(a, b, k + 1));
        }
        if exists|k: int| #[trigger] differ_first_at(a, b, k) {
            let k = choose|k: int| #[trigger] differ_first_at(a, b, k);
            assert(k > 0);
            assert(x.take(k - 1) =~= a.take(k).drop_first());
            assert(y.take(k - 1) =~= b.take(k).drop_first());
            assert(differ_first_at(x, y, k - 1));
        }
    } else {
        if text::text_less(a, b) {
            assert(a.take(0) =~= b.take(0));
            assert(differ_first_at(a, b, 0));
        }
        if exists|k: int| #[trigger] differ_first_at(a, b, k) {
            let k = choose|k: int| #[trigger] differ_first_at(a, b, k);
            if k > 0 {
                assert(a.take(k)[0] == b.take(k)[0]);
            }
        }
    }
}

/// The texts are the same before `k`, and there the first one ends or has the
/// smaller character.
pub open spec fn differ_first_at(a: Seq<char>, b: Seq<char>, k: int) -> bool {
    &&& 0 <= k <= a.len() && k < b.len()
    &&& a.take(k) == b.take(k)
    &&& k == a.len() || a[k] < b[k]
}

/// Lower case is that of the ASCII letters; everything else stays.
pub proof fn only_letters_are_lowered(s: Seq<char>, i: int)
    requires
        0 <= i < s.len(),
    ensures
        text::lowered(s).len() == s.len(),
        'A' <= s[i] <= 'Z' ==> text::lowered(s)[i] as u32 == s[i] as u32 + ('a' as u32 - 'A' as u32),
        !('A' <= s[i] <= 'Z') ==> text::lowered(s)[i] == s[i],
{
}

// ---------------------------------------------------------------------------
// Paths
// ---------------------------------------------------------------------------

/// A name in a directory is the directory, a slash and the name; where the
/// directory ends in a slash there is no second one, and where it is empty
/// there is none. An absolute name stands for itself.
pub proof fn names_stand_in_their_directory(dir: Seq<char>, name: Seq<char>)
    ensures
        name.len() > 0 && name[0] == '/' ==> path::join(dir, name) == name,
        dir.len() == 0 ==> path::join(dir, name) == name,
        dir.len() > 0 && dir.last() == '/' && !name.contains('/') ==> path::join(dir, name) == dir
            + name,
        dir.len() > 0 && dir.last() != '/' && !name.contains('/') ==> path::join(dir, name) == dir
            + seq!['/'] + name,
{
    if name.len() > 0 && name[0] == '/' {
        assert(name.contains(name[0]));
    }
    assert(dir.push('/') + name =~= dir + seq!['/'] + name);
}

/// It holds no slash, and is not one of the two names that stand for a
/// directory.
pub open spec fn is_name(s: Seq<char>) -> bool {
    s.len() > 0 && !s.contains('/') && s != "."@ && s != ".."@
}

proof fn lemma_trim_keeps(p: Seq<char>)
    requires
        p.len() > 0,
        p.last() != '/',
        p.last() != '.' || (p.len() > 1 && p[p.len() - 2] != '/'),
    ensures
        path::trim_back(p) == p,
{
}

/// The name of `dir/name` is `name`, and its parent is `dir`.
pub proof fn a_path_is_taken_apart(dir: Seq<char>, name: Seq<char>)
    requires
        is_name(name),
        dir.len() > 0,
        dir.last() != '/',
        dir.last() != '.',
    ensures
        path::file_name(dir + seq!['/'] + name) == Some(name),
        path::parent(dir + seq!['/'] + name) == Some(dir),
{
    let p = dir + seq!['/'] + name;
    let n = dir.len() as int;
    reveal_strlit(".");
    reveal_strlit("..");
    reveal_strlit("/");
    assert(p.last() == name.last());
    assert(name.contains(name.last()));
    if name.last() == '.' {
        if name.len() == 1 {
            assert(name =~= "."@);
        } else {
            assert(p[p.len() - 2] == name[name.len() - 2]);
            assert(name.contains(name[name.len() - 2]));
        }
    }
    lemma_trim_keeps(p);
    nothing_alike_comes_behind_the_last(p, '/');
    let at = text::after_last(p, '/');
    assert(at == n + 1) by {
        assert(p[n] == '/');
        if at <= n {
            assert(p.skip(at)[n - at] == '/');
            assert(p.skip(at).contains('/'));
        }
        if at > n + 1 {
            assert(p[at - 1] == name[at - 1 - (n + 1)]);
            assert(name.contains(name[at - 1 - (n + 1)]));
        }
    }
    assert(p.skip(at) =~= name);
    assert(p.take(at) =~= dir.push('/'));
    assert(p.take(at).drop_last() =~= dir);
    lemma_trim_keeps(dir);
    assert(path::trim_back(p.take(at)) == path::trim_back(dir));
    assert(p.len() > 1);
    assert("/"@.len() == 1);
}

/// A name alone has itself as its name, and an empty parent.
pub proof fn a_bare_name_has_no_directory(name: Seq<char>)
    requires
        is_name(name),
    ensures
        path::file_name(name) == Some(name),
        path::parent(name) == Some(Seq::<char>::empty()),
{
    reveal_strlit(".");
    reveal_strlit("..");
    reveal_strlit("/");
    assert(name.contains(name.last()));
    if name.last() == '.' {
        if name.len() == 1 {
            assert(name =~= "."@);
        } else {
            assert(name.contains(name[name.len() - 2]));
        }
        assert(path::trim_back(name) == name);
    } else {
        lemma_trim_keeps(name);
    }
    nothing_alike_comes_behind_the_last(name, '/');
    let at = text::after_last(name, '/');
    if at > 0 {
        assert(name.contains(name[at - 1]));
    }
    assert(name.skip(0) =~= name);
    assert(name.take(0) =~= Seq::<char>::empty());
    assert(name != "/"@) by {
        if name == "/"@ {
            assert(name[0] == '/');
            assert(name.contains(name[0]));
        }
    }
}

} // verus!
