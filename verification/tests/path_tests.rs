use std::path::{Component, Path};
use tmplr::path_guard::{
    escapes, file_name, has_extension, has_parent_dir, validate_path, validate_path_bytes,
    validate_path_string, PathError,
};
use tmplr::text::{
    contains, copy_chars, eq_ignore_ascii_case, find, from_chars, is_whitespace, same_chars,
    starts_at, sub_vec, to_chars, trimmed, word_end,
};

const SAMPLES: [&str; 40] = [
    "", ".", "..", "...", "/", "//", "a", "a/", "a//", "a/b", "a//b", "a/./b", "a/../b", "../a",
    "a/..", "a/../", "/..", "/../a", "./..", "./a", "a/.", "a/./", "a/b/.", ".a", "a.", "..a",
    "a..", "a/..b", "a/b..", "a/.b/c", "a..b", "a/.../b", "x.tmplr", "d/x.tmplr", "d.e/x",
    ".hidden", "a/.hidden", "x.tar.gz", "x.", "-/..-",
];

#[test]
fn accepted_path_is_handed_back_unjoined() {
    assert_eq!(validate_path("/root", "a/b.txt"), Ok("a/b.txt".to_string()));
    assert_eq!(validate_path("", "./a"), Ok("./a".to_string()));
    assert_eq!(validate_path_string("dir2/file.txt"), Ok("dir2/file.txt".to_string()));
    assert_eq!(validate_path_string(""), Ok(String::new()));
}

#[test]
fn parent_component_gives_path_escape() {
    assert_eq!(validate_path("/root", ".."), Err(PathError::PathEscape));
    assert_eq!(validate_path("/root", "a/../b"), Err(PathError::PathEscape));
    assert_eq!(validate_path("/root", "a/b/.."), Err(PathError::PathEscape));
    assert_eq!(validate_path_string("../x"), Err(PathError::PathEscape));
}

#[test]
fn absolute_path_gives_path_escape() {
    assert_eq!(validate_path(".", "/etc/x"), Err(PathError::PathEscape));
    assert_eq!(validate_path("/root", "/root/x"), Err(PathError::PathEscape));
    assert_eq!(validate_path_string("/"), Err(PathError::PathEscape));
    assert_eq!(validate_path_string("//a"), Err(PathError::PathEscape));
    assert_eq!(validate_path_bytes(b"/etc/x"), Err(PathError::PathEscape));
    assert_eq!(validate_path_string("a/"), Ok("a/".to_string()));
    assert_eq!(validate_path_string("a//b"), Ok("a//b".to_string()));
}

#[test]
fn bytes_that_are_not_text_are_not_a_path() {
    assert_eq!(validate_path_bytes(&[0x66, 0x6f, 0xff]), Err(PathError::NotAPath));
    assert_eq!(validate_path_bytes(&[0xc3]), Err(PathError::NotAPath));
    assert_eq!(validate_path_bytes(&[0xed, 0xa0, 0x80]), Err(PathError::NotAPath));
}

#[test]
fn bytes_that_are_text_are_validated() {
    assert_eq!(validate_path_bytes(b"a/b"), Ok("a/b".to_string()));
    assert_eq!(validate_path_bytes("d/\u{e9}t\u{e9}".as_bytes()), Ok("d/\u{e9}t\u{e9}".to_string()));
    assert_eq!(validate_path_bytes(b"a/../b"), Err(PathError::PathEscape));
    assert_eq!(validate_path_bytes(b""), Ok(String::new()));
}

#[test]
fn error_messages() {
    assert_eq!(PathError::NotAPath.message(), "Not a path");
    assert_eq!(
        PathError::PathEscape.message(),
        "Target reaches outside parent directory"
    );
}

#[test]
fn parent_check_agrees_with_path_components() {
    for sample in SAMPLES {
        let expected = Path::new(sample)
            .components()
            .any(|c| matches!(c, Component::ParentDir));
        assert_eq!(has_parent_dir(&to_chars(sample)), expected, "{:?}", sample);
        let refused = expected || Path::new(sample).is_absolute();
        assert_eq!(escapes(&to_chars(sample)), refused, "{:?}", sample);
        assert_eq!(validate_path_string(sample).is_err(), refused, "{:?}", sample);
    }
}

#[test]
fn file_name_agrees_with_path() {
    for sample in SAMPLES {
        let expected = Path::new(sample)
            .file_name()
            .map(|n| n.to_string_lossy().into_owned());
        assert_eq!(file_name(sample), expected, "{:?}", sample);
    }
    assert_eq!(file_name("subdir/file.txt"), Some("file.txt".to_string()));
    assert_eq!(file_name("a/b/"), Some("b".to_string()));
    assert_eq!(file_name("a/.."), None);
}

#[test]
fn extension_agrees_with_path() {
    for sample in SAMPLES {
        let expected = Path::new(sample)
            .extension()
            .map(|n| n.to_string_lossy().into_owned());
        for wanted in ["", "tmplr", "gz", "e/x", "hidden", "b", "a"] {
            assert_eq!(
                has_extension(sample, wanted),
                expected.as_deref() == Some(wanted),
                "{:?} {:?}",
                sample,
                wanted
            );
        }
    }
    assert!(has_extension("ex1.tmplr", "tmplr"));
    assert!(!has_extension("ex1.txt", "tmplr"));
    assert!(!has_extension(".tmplr", "tmplr"));
    assert!(!has_extension("tmplr", "tmplr"));
}

#[test]
fn white_space_is_what_the_standard_library_says() {
    let mut code: u32 = 0;
    while code <= 0x10FFFF {
        if let Some(c) = char::from_u32(code) {
            assert_eq!(is_whitespace(c), c.is_whitespace(), "U+{:04X}", code);
        }
        code += 1;
    }
}

#[test]
fn trimming_is_what_the_standard_library_does() {
    for sample in [
        "", " ", "a", " a", "a ", "  a b  ", "\n\ta\u{a0}", "\u{2003}x\u{3000}", "\u{200b}x",
        " \u{e9} ",
    ] {
        let got: String = trimmed(&to_chars(sample)).iter().collect();
        assert_eq!(got, sample.trim(), "{:?}", sample);
    }
}

#[test]
fn characters_go_to_vectors_and_back() {
    let text = "h\u{e9}llo \u{1F600}";
    let chars = to_chars(text);
    assert_eq!(chars, text.chars().collect::<Vec<char>>());
    assert_eq!(from_chars(&chars), text);
    assert_eq!(copy_chars(&chars), chars);
    assert_eq!(sub_vec(&chars, 1, 3), vec!['\u{e9}', 'l']);
    assert_eq!(from_chars(&Vec::new()), "");
}

#[test]
fn search_finds_the_first_match() {
    let s = to_chars("abcabc");
    assert_eq!(find(&s, &to_chars("bc"), 0), Some(1));
    assert_eq!(find(&s, &to_chars("bc"), 1), Some(1));
    assert_eq!(find(&s, &to_chars("bc"), 2), Some(4));
    assert_eq!(find(&s, &to_chars("bc"), 5), None);
    assert_eq!(find(&s, &to_chars("x"), 0), None);
    assert_eq!(find(&s, &to_chars(""), 6), Some(6));
    assert_eq!(find(&s, &to_chars(""), 7), None);
    assert_eq!(find(&s, &to_chars("abcabcd"), 0), None);
    assert!(starts_at(&s, &to_chars("cab"), 2));
    assert!(!starts_at(&s, &to_chars("cab"), 5));
    assert!(contains(&s, &to_chars("ca")));
    assert!(contains(&s, &to_chars("")));
    assert!(!contains(&s, &to_chars("cb")));
}

#[test]
fn words_and_case() {
    assert_eq!(word_end(&to_chars("FILE x")), 4);
    assert_eq!(word_end(&to_chars("FILE")), 4);
    assert_eq!(word_end(&to_chars(" x")), 0);
    assert!(eq_ignore_ascii_case(&to_chars("fIlE"), &to_chars("FILE")));
    assert!(!eq_ignore_ascii_case(&to_chars("FILE"), &to_chars("FILES")));
    assert!(!eq_ignore_ascii_case(&to_chars("@"), &to_chars("`")));
    assert!(!eq_ignore_ascii_case(&to_chars("["), &to_chars("{")));
    assert!(same_chars(&to_chars("ab"), &to_chars("ab")));
    assert!(!same_chars(&to_chars("ab"), &to_chars("aB")));
}
