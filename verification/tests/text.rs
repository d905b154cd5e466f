//! Text, paths and order, held against the standard library.

use why::order::sort_order;
use why::path::{is_listed, joined, name_of, names_same, parent_of};
use why::text;

fn chars(s: &str) -> Vec<char> {
    s.chars().collect()
}

fn string(s: &[char]) -> String {
    s.iter().collect()
}

#[test]
fn white_space_and_control_characters_are_those_of_unicode() {
    for n in 0..=0x10ffffu32 {
        if let Some(c) = char::from_u32(n) {
            assert_eq!(text::white(c), c.is_whitespace(), "{n:x}");
            assert_eq!(text::control(c), c.is_control(), "{n:x}");
        }
    }
}

const SAMPLES: [&str; 12] = [
    "",
    " ",
    "a",
    "  a b  ",
    "\t\u{a0}x\u{2003}",
    "''a''",
    "a=b=c",
    "=",
    "Äbc DEF",
    "aaa",
    "\u{1f600}x\u{1f600}",
    "/usr/lib",
];

#[test]
fn characters_and_strings_come_back() {
    for s in SAMPLES {
        assert_eq!(text::chars_of(s), chars(s));
        assert_eq!(text::string_of(&chars(s)), s);
    }
}

#[test]
fn trims_strips_and_lowers_like_std() {
    for s in SAMPLES {
        assert_eq!(string(text::trim(&chars(s))), s.trim());
        assert_eq!(string(text::strip(&chars(s), '\'')), s.trim_matches('\''));
        assert_eq!(string(&text::lowercase(&chars(s))), s.to_ascii_lowercase());
        assert_eq!(string(&text::word(&chars(s))), s.split_whitespace().next().unwrap_or(""));
        assert_eq!(text::has_white(&chars(s)), s.chars().any(char::is_whitespace));
    }
}

#[test]
fn splits_and_finds_like_std() {
    for s in SAMPLES {
        let pieces: Vec<String> =
            text::split_chars(&chars(s), '=').iter().map(|p| string(p)).collect();
        let std: Vec<&str> = s.split('=').collect();
        assert_eq!(pieces, std);
        for p in ["=", "a", "aa", "b=", "x\u{1f600}"] {
            let p_chars = chars(p);
            assert_eq!(text::has_part(&chars(s), &p_chars), s.contains(p));
            assert_eq!(text::begins_with(&chars(s), &p_chars), s.starts_with(p));
            assert_eq!(text::finishes_with(&chars(s), &p_chars), s.ends_with(p));
            let cut = text::cut_once(&chars(s), &p_chars)
                .map(|(a, b)| (string(&a), string(&b)));
            let std = s.split_once(p).map(|(a, b)| (a.to_string(), b.to_string()));
            assert_eq!(cut, std);
            let replaced = string(&text::replace_text(&chars(s), &p_chars, &chars("<a>")));
            assert_eq!(replaced, s.replace(p, "<a>"));
        }
    }
}

#[test]
fn compares_like_std() {
    for a in SAMPLES {
        for b in SAMPLES {
            assert_eq!(text::same_text(a, b), a == b);
            assert_eq!(text::same_chars(&chars(a), &chars(b)), a == b);
            assert_eq!(text::comes_before(&chars(a), &chars(b)), a < b);
        }
    }
}

#[test]
fn writes_and_reads_numbers_like_std() {
    for n in [0u64, 7, 10, 99, 100, 12345, u64::MAX] {
        let mut out = String::from("n=");
        text::push_decimal(&mut out, n);
        assert_eq!(out, format!("n={n}"));
    }
    for n in [0u32, 7, 8, 0o644, 0o7777, 0o12345, u32::MAX] {
        let mut out = String::new();
        text::push_octal4(&mut out, n);
        assert_eq!(out, format!("{n:04o}"));
    }
    for s in ["", "0", "42", "+42", "-1", "+", "++1", "4294967295", "4294967296", "1 ", "0012", "x"]
    {
        assert_eq!(text::parse_number(&chars(s)), s.parse::<u32>().ok(), "{s}");
    }
}

#[test]
fn paths_behave_like_std_paths() {
    let paths = [
        "", "/", "//", ".", "..", "a", "a/", "/a", "/a/", "a/b", "a//b", "/a/./b", "a/.", "a/..",
        "./a", "a/./", "/.", "/..", "//a//b//", "a/b/./.", ".//a", "...", "/a/b.c/",
    ];
    for p in paths {
        let path = std::path::Path::new(p);
        let parent = parent_of(&chars(p)).map(|d| string(&d));
        assert_eq!(parent.as_deref(), path.parent().and_then(|d| d.to_str()), "parent of {p:?}");
        let name = name_of(&chars(p)).map(|n| string(&n));
        assert_eq!(name.as_deref(), path.file_name().and_then(|n| n.to_str()), "name of {p:?}");
        for q in paths {
            let other = std::path::Path::new(q);
            assert_eq!(names_same(p, q), path == other, "{p:?} and {q:?}");
            let std = path.join(other);
            assert_eq!(Some(joined(p, q).as_str()), std.to_str(), "{p:?} and {q:?}");
        }
    }
    let list = vec!["/a/b".to_string(), "c".to_string()];
    assert!(is_listed(&list, "/a//b/."));
    assert!(!is_listed(&list, "a/b"));
}

#[test]
fn orders_stably() {
    let keys: Vec<(Vec<char>, Vec<char>)> = [
        ("b", "x"),
        ("a", "z"),
        ("b", "a"),
        ("a", "z"),
        ("", ""),
        ("ab", ""),
        ("a", "y"),
    ]
    .iter()
    .map(|(a, b)| (chars(a), chars(b)))
    .collect();
    assert_eq!(sort_order(&keys), vec![4, 6, 1, 3, 5, 2, 0]);
    let mut std: Vec<usize> = (0..keys.len()).collect();
    std.sort_by(|i, j| keys[*i].cmp(&keys[*j]));
    assert_eq!(sort_order(&keys), std);
}
