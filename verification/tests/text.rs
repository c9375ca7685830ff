use pkgsync::order::{sort_stably, text_before};
use pkgsync::path::{join_path, same_path, split_components};
use pkgsync::text::{
    is_whitespace, join, push_decimal, push_integer, split_lines, split_words, string_of, trim,
};
use std::path::{Path, PathBuf};

const TEXTS: [&str; 16] = [
    "", " ", "a", " a ", "a b", "a\tb\u{a0}c", "\n", "a\nb", "a\r\nb\n", "\r\n\r\n", "a\r",
    "a\n\rb\n", "\u{3000}x\u{2028}y\u{85}", "é  ß", "a\n\n", "\u{200b}z\u{feff}",
];

#[test]
fn whitespace_is_unicode_white_space() {
    for code in 0..=0x10ffffu32 {
        if let Some(c) = char::from_u32(code) {
            assert_eq!(is_whitespace(c), c.is_whitespace(), "{:?}", c);
        }
    }
}

#[test]
fn splitting_and_trimming_agree_with_the_standard_library() {
    for text in TEXTS {
        assert_eq!(split_lines(text), text.lines().collect::<Vec<_>>(), "{:?}", text);
        assert_eq!(split_words(text), text.split_whitespace().collect::<Vec<_>>(), "{:?}", text);
        assert_eq!(trim(text), text.trim(), "{:?}", text);
    }
}

#[test]
fn text_order_agrees_with_the_standard_library() {
    for a in TEXTS {
        for b in TEXTS {
            assert_eq!(text_before(a, b), a < b, "{:?} {:?}", a, b);
        }
    }
    assert!(text_before("\u{ffff}", "\u{10000}"));
}

#[test]
fn sorting_puts_texts_in_order() {
    let mut v: Vec<String> = TEXTS.iter().map(|s| s.to_string()).collect();
    let mut w = v.clone();
    sort_stably(&mut v);
    w.sort();
    assert_eq!(v, w);
}

#[test]
fn numbers_are_written_in_decimal() {
    for n in [0usize, 7, 9, 10, 42, 100, 65535, usize::MAX] {
        let mut out = String::from("n=");
        push_decimal(&mut out, n);
        assert_eq!(out, format!("n={}", n));
    }
    for n in [0i32, 1, -1, 255, -10, i32::MAX, i32::MIN] {
        let mut out = String::new();
        push_integer(&mut out, n);
        assert_eq!(out, n.to_string());
    }
}

#[test]
fn strings_are_built_of_characters() {
    assert_eq!(string_of(&['a', 'é', '→', 'd'], 1, 3), "é→");
    assert_eq!(join(&["-S".to_string(), "vim".to_string()], " "), "-S vim");
    assert_eq!(join(&[], " "), "");
}

const PATHS: [&str; 24] = [
    "", "/", "//", ".", "./", "./.", "./a", "a", "a/", "a//", "a/.", "a/b", "a//b", "a/./b",
    "a/../b", "/a", "//a", "/./a", "/a/b/", "..", "../a", "a.b/c", "/.", "./../a",
];

#[test]
fn path_equality_agrees_with_the_standard_library() {
    for a in PATHS {
        for b in PATHS {
            assert_eq!(same_path(a, b), Path::new(a) == Path::new(b), "{:?} {:?}", a, b);
        }
    }
}

#[test]
fn path_components_agree_with_the_standard_library() {
    for a in PATHS {
        let expected: Vec<String> = Path::new(a)
            .components()
            .map(|c| c.as_os_str().to_string_lossy().into_owned())
            .collect();
        assert_eq!(split_components(a), expected, "{:?}", a);
    }
}

#[test]
fn joining_paths_agrees_with_the_standard_library() {
    for a in PATHS {
        for b in PATHS {
            let expected = PathBuf::from(a).join(b).display().to_string();
            assert_eq!(join_path(a, b), expected, "{:?} {:?}", a, b);
        }
    }
}
