//! Text and path functions next to those of the standard library.
use rucerts::path::{join_path, name_extension, name_stem, path_file_name};
use rucerts::text::{
    chars_of, comes_before, copy_texts, cut, decimal_text, find_from, find_text, has_prefix,
    has_suffix, is_white_space, join, list_contains, matches_at, replace, same_bytes, same_chars,
    same_text, same_texts, slice_of, split_lines, string_of, strip_prefix, trim,
};
use std::path::Path;

const SAMPLES: [&str; 12] = [
    "",
    "\n",
    "a\r\nb\n\nc",
    "  padded\t",
    "\u{a0}нет\u{3000}",
    "\r",
    "a\r\r\nb",
    "last line\r",
    "x\u{85}",
    "no space",
    " ",
    "🦀 crab\n",
];

#[test]
fn white_space_is_that_of_unicode() {
    for code in 0..=0x10ffff_u32 {
        if let Some(c) = char::from_u32(code) {
            assert_eq!(is_white_space(c), c.is_whitespace(), "{code:x}");
        }
    }
}

#[test]
fn trimming_and_lines_match_the_standard_library() {
    for s in SAMPLES {
        let chars = chars_of(s);
        assert_eq!(string_of(&chars), s);
        assert_eq!(string_of(&trim(&chars)), s.trim());
        let lines: Vec<String> = split_lines(&chars).iter().map(string_of).collect();
        assert_eq!(lines, s.lines().collect::<Vec<_>>(), "{s:?}");
    }
}

#[test]
fn searching_matches_the_standard_library() {
    for s in SAMPLES {
        let chars = chars_of(s);
        for p in ["", "a", "\n", "pad", "нет", "last line\r"] {
            let place = s.find(p).map(|at| s[..at].chars().count());
            assert_eq!(find_text(&chars, p), place, "{s:?} {p:?}");
            assert_eq!(has_prefix(&chars, p), s.starts_with(p));
            assert_eq!(has_suffix(&chars, &chars_of(p)), s.ends_with(p));
            assert_eq!(
                strip_prefix(&chars, p).map(|rest| string_of(&rest)).as_deref(),
                s.strip_prefix(p)
            );
            assert_eq!(matches_at(&chars, &chars_of(p), 0), s.starts_with(p));
        }
    }
    assert_eq!(find_from(&chars_of("a/b/c"), '/', 2), 3);
    assert_eq!(find_from(&chars_of("abc"), '/', 1), 3);
}

#[test]
fn replacing_matches_the_standard_library() {
    for (s, p, w) in [
        ("aaa", "aa", "b"),
        ("a\r\nb\r\n", "\r\n", "\n"),
        ("none", "x", "y"),
        ("", "x", "y"),
        ("xxxx", "x", ""),
        ("дада", "да", "нет"),
    ] {
        assert_eq!(replace(s, p, w), s.replace(p, w));
    }
}

#[test]
fn joining_puts_separators_between() {
    let parts: Vec<String> = ["a", "b", "c"].map(str::to_owned).to_vec();
    assert_eq!(join(&parts, ", "), "a, b, c");
    assert_eq!(join(&parts[..1].to_vec(), ", "), "a");
    assert_eq!(join(&Vec::new(), ", "), "");
}

#[test]
fn texts_are_told_apart() {
    let list: Vec<String> = ["a", "b"].map(str::to_owned).to_vec();
    assert!(list_contains(&list, "b"));
    assert!(!list_contains(&list, "c"));
    assert_eq!(copy_texts(&list), list);
    assert!(same_texts(&list, &copy_texts(&list)));
    assert!(!same_texts(&list, &vec!["a".to_owned()]));
    assert!(!same_texts(&list, &vec!["a".to_owned(), "c".to_owned()]));
    assert!(same_text("да", "да") && !same_text("да", "дa"));
    assert!(same_chars(&vec!['a'], &vec!['a']) && !same_chars(&vec!['a'], &vec!['b']));
    assert!(same_bytes(&vec![1], &vec![1]) && !same_bytes(&vec![1], &vec![1, 2]));
    assert_eq!(slice_of(&chars_of("abcd"), 1, 3), vec!['b', 'c']);
}

#[test]
fn numbers_are_written_in_decimal() {
    for n in [0, 7, 10, 66, 12345, usize::MAX] {
        assert_eq!(decimal_text(n), n.to_string());
    }
}

#[test]
fn order_is_that_of_strings() {
    let words = ["", "a", "aa", "ab", "b", "Z", "я", "🦀", "a\u{ffff}", "a\u{10000}"];
    for a in words {
        for b in words {
            assert_eq!(comes_before(a, b), a < b, "{a:?} {b:?}");
        }
    }
}

#[test]
fn cutting_makes_pieces_that_join_up() {
    let text: String = "abcdefgh".repeat(20);
    let pieces = cut(&text, 76);
    assert_eq!(pieces.len(), 3);
    assert!(pieces.iter().all(|p| p.len() <= 76));
    assert_eq!(pieces.concat(), text);
    assert!(cut("", 76).is_empty());
    assert_eq!(cut("abcd", 2), vec!["ab", "cd"]);
}

#[test]
fn paths_match_the_standard_library() {
    for p in [
        "roots/a.cer", "a", "", "/", "a/", "a/.", "a/..", "..", ".", ".hidden", "a.b.c", "dir/.x.y",
        "/abs/file.PEM", "a//b.crt", "noext.", "x/y/./", "a/b/../",
    ] {
        let path = Path::new(p);
        let name = path.file_name().map(|n| n.to_str().unwrap().to_owned());
        assert_eq!(path_file_name(p), name, "{p:?}");
        if let Some(name) = name {
            let own = Path::new(&name);
            assert_eq!(name_stem(&name), own.file_stem().unwrap().to_str().unwrap());
            assert_eq!(
                name_extension(&name).as_deref(),
                own.extension().map(|e| e.to_str().unwrap())
            );
        }
    }
    for (base, name) in [("a", "b"), ("a/", "b"), ("", "b"), ("a", "/b"), ("/", "b"), ("a", "")] {
        assert_eq!(join_path(base, name), Path::new(base).join(name).to_str().unwrap());
    }
}
