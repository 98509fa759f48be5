use tmplr::path_guard::PathError;
use tmplr::template::{parse_marker, read_template, Command, Node, EXTENSION};

fn file(path: &str, content: &str) -> Node {
    Node::File {
        path: path.to_string(),
        content: content.to_string(),
    }
}

fn ext(path: &str, content: &str) -> Node {
    Node::Ext {
        path: path.to_string(),
        content: content.to_string(),
    }
}

fn dir(path: &str) -> Node {
    Node::Dir(path.to_string())
}

#[test]
fn decodes_entities_in_order() {
    let text = "\n{### DIR dir1 ###}\n{### FILE file_{{name}}.txt ###}\nHello {{name}}\n{### EXT log.txt ###}\nmore\n";
    assert_eq!(
        read_template(text),
        Ok(vec![
            dir("dir1"),
            file("file_{{name}}.txt", "\nHello {{name}}\n"),
            ext("log.txt", "\nmore\n"),
        ])
    );
}

#[test]
fn empty_text_has_no_entities() {
    assert_eq!(read_template(""), Ok(vec![]));
    assert_eq!(read_template("only a header\n"), Ok(vec![]));
}

#[test]
fn header_and_text_after_a_directory_are_dropped() {
    let text = "header\n{### DIR d ###}\nlost\n{### FILE f ###}kept";
    assert_eq!(read_template(text), Ok(vec![dir("d"), file("f", "kept")]));
}

#[test]
fn directory_closes_the_open_file() {
    let text = "{### FILE f ###}one{### DIR d ###}two";
    assert_eq!(read_template(text), Ok(vec![file("f", "one"), dir("d")]));
}

#[test]
fn unknown_command_changes_nothing() {
    let text = "{### FILE f ###}one{### NOPE x/../y ###}two";
    assert_eq!(read_template(text), Ok(vec![file("f", "onetwo")]));
    assert_eq!(read_template("{### ###}"), Ok(vec![]));
    assert_eq!(read_template("{######}"), Ok(vec![]));
}

#[test]
fn unclosed_marker_ends_the_scan() {
    let text = "{### FILE f ###}one{### FILE g";
    assert_eq!(read_template(text), Ok(vec![file("f", "one")]));
    assert_eq!(read_template("{### FILE f"), Ok(vec![]));
    assert_eq!(read_template("a{###"), Ok(vec![]));
}

#[test]
fn command_word_ignores_case() {
    let text = "{### file a ###}{### DiR b ###}{### ext c ###}";
    assert_eq!(
        read_template(text),
        Ok(vec![file("a", ""), dir("b"), ext("c", "")])
    );
}

#[test]
fn path_argument_is_trimmed() {
    let text = "{###   FILE \t  my file.txt   \n ###}x";
    assert_eq!(read_template(text), Ok(vec![file("my file.txt", "x")]));
    assert_eq!(read_template("{###FILE###}"), Ok(vec![file("", "")]));
    assert_eq!(read_template("{### FILE ###}"), Ok(vec![file("", "")]));
}

#[test]
fn command_needs_white_space_after_it() {
    assert_eq!(read_template("{###FILEx###}"), Ok(vec![]));
    assert_eq!(read_template("{### FILES a ###}"), Ok(vec![]));
}

#[test]
fn parent_component_is_refused_at_any_position() {
    for path in ["..", "../a", "a/..", "a/../b", "./..", "a/b/../../..", "/.."] {
        let text = format!("{{### FILE {} ###}}x", path);
        assert_eq!(read_template(&text), Err(PathError::PathEscape));
        let text = format!("{{### DIR {} ###}}", path);
        assert_eq!(read_template(&text), Err(PathError::PathEscape));
        let text = format!("{{### EXT {} ###}}", path);
        assert_eq!(read_template(&text), Err(PathError::PathEscape));
    }
}

#[test]
fn absolute_path_is_refused() {
    for path in ["/etc/x", "/", "//a", "/a/b"] {
        for command in ["FILE", "DIR", "EXT"] {
            let text = format!("{{### {} {} ###}}x", command, path);
            assert_eq!(read_template(&text), Err(PathError::PathEscape));
        }
    }
    assert_eq!(
        read_template("{### FILE ok ###}x{### DIR /abs ###}"),
        Err(PathError::PathEscape)
    );
    assert_eq!(read_template("{### NOPE /abs ###}"), Ok(vec![]));
    assert_eq!(read_template("{### DIR a/ ###}"), Ok(vec![dir("a/")]));
}

#[test]
fn dots_inside_names_are_accepted() {
    for path in ["..a", "a..", "a/..b/c", "...", "a/.../b", ".", "./a", "a..b"] {
        let text = format!("{{### DIR {} ###}}", path);
        assert_eq!(read_template(&text), Ok(vec![dir(path)]));
    }
}

#[test]
fn error_comes_even_after_good_entities() {
    let text = "{### FILE ok ###}x{### DIR a/../b ###}";
    assert_eq!(read_template(text), Err(PathError::PathEscape));
}

#[test]
fn close_token_is_the_first_after_the_open_token() {
    let text = "{### FILE a ###} b ###}";
    assert_eq!(read_template(text), Ok(vec![file("a", " b ###}")]));
    let text = "{### {### FILE a ###}x";
    assert_eq!(read_template(text), Ok(vec![]));
}

#[test]
fn marker_is_read_as_word_and_argument() {
    let inner: Vec<char> = "  Dir   some path  ".chars().collect();
    let (command, argument) = parse_marker(&inner);
    assert_eq!(command, Command::Dir);
    assert_eq!(argument.iter().collect::<String>(), "some path");
    let inner: Vec<char> = "\u{a0}EXT\u{2003}x\u{3000}".chars().collect();
    let (command, argument) = parse_marker(&inner);
    assert_eq!(command, Command::Ext);
    assert_eq!(argument.iter().collect::<String>(), "x");
    let inner: Vec<char> = "f\u{131}le x".chars().collect();
    assert_eq!(parse_marker(&inner).0, Command::Unknown);
}

#[test]
fn template_extension_is_tmplr() {
    assert_eq!(EXTENSION, "tmplr");
}
