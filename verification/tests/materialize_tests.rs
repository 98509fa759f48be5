use tmplr::context::VariableContext;
use tmplr::materialize::{
    extend_content, extension_line, make, plan_entity, render_file, status_line,
    unknown_filters, update_context_with_magic_vars, Extension, RenderedFile, Step,
};
use tmplr::path_guard::PathError;
use tmplr::resolve::{lookup_candidates, match_partial, ResolveError};
use tmplr::template::Node;

fn ctx(pairs: &[(&str, &str)]) -> VariableContext {
    let mut c = VariableContext::new();
    for (k, v) in pairs {
        c.insert(k, v);
    }
    c
}

fn rendered(path: &str, content: &str, unknown: &[&str]) -> RenderedFile {
    RenderedFile {
        path: path.to_string(),
        content: content.to_string(),
        unknown_filters: strings(unknown),
    }
}

fn strings(list: &[&str]) -> Vec<String> {
    list.iter().map(|s| s.to_string()).collect()
}

#[test]
fn missing_file_is_written() {
    assert_eq!(
        extend_content(None, "Hello"),
        Extension::Write("Hello".to_string())
    );
    assert_eq!(extend_content(None, ""), Extension::Write(String::new()));
}

#[test]
fn held_content_is_not_added_again() {
    assert_eq!(extend_content(Some("Line 1\n"), "Line 1"), Extension::Skip);
    assert_eq!(extend_content(Some("abc"), "b"), Extension::Skip);
    assert_eq!(extend_content(Some("abc"), ""), Extension::Skip);
    assert_eq!(extend_content(Some(""), ""), Extension::Skip);
}

#[test]
fn new_content_follows_a_line_break() {
    assert_eq!(
        extend_content(Some("Line 1\n"), "Line 2\nTEST"),
        Extension::Extend("Line 1\n\nLine 2\nTEST".to_string())
    );
    assert_eq!(
        extend_content(Some(""), "x"),
        Extension::Extend("\nx".to_string())
    );
}

#[test]
fn extending_twice_extends_once() {
    for (held, addition) in [(None, "x"), (Some("a"), "b"), (Some("ab"), "b"), (Some(""), "")] {
        let after = match extend_content(held, addition) {
            Extension::Write(text) | Extension::Extend(text) => text,
            Extension::Skip => held.unwrap().to_string(),
        };
        assert_eq!(extend_content(Some(&after), addition), Extension::Skip);
    }
}

#[test]
fn magic_variables_come_from_the_path() {
    let mut c = ctx(&[("name", "N"), ("$file", "old")]);
    update_context_with_magic_vars(&mut c, "subdir/file.txt");
    assert_eq!(c.get("$path"), Some("subdir/file.txt".to_string()));
    assert_eq!(c.get("$file"), Some("file.txt".to_string()));
    assert_eq!(c.get("name"), Some("N".to_string()));
    let mut c = ctx(&[]);
    update_context_with_magic_vars(&mut c, "./");
    assert_eq!(c.get("$path"), Some("./".to_string()));
    assert_eq!(c.get("$file"), None);
}

#[test]
fn file_is_rendered_with_its_own_variables() {
    let c = ctx(&[("name", "TEST")]);
    assert_eq!(
        render_file(
            "dir/{{name}}.txt",
            "\n  {{ $file }} at {{ $path }} for {{name|upper}} \n\n",
            &c
        ),
        Ok(rendered("dir/TEST.txt", "TEST.txt at dir/TEST.txt for TEST", &[]))
    );
    assert_eq!(c.get("$path"), None);
}

#[test]
fn user_variables_do_not_shadow_magic_variables() {
    let c = ctx(&[("$path", "mine")]);
    assert_eq!(
        render_file("{{$path}}.txt", "{{$path}}", &c),
        Ok(rendered("mine.txt", "mine.txt", &[]))
    );
}

#[test]
fn rendered_path_is_validated() {
    let c = ctx(&[("up", "..")]);
    assert_eq!(render_file("{{up}}/x", "c", &c), Err(PathError::PathEscape));
    assert_eq!(
        render_file("{{up}}x", "c", &c),
        Ok(rendered("..x", "c", &[]))
    );
}

#[test]
fn steps_of_a_real_run() {
    let c = ctx(&[("name", "TEST")]);
    let nodes = vec![
        Node::Dir("{{name}}/d".to_string()),
        Node::File {
            path: "f_{{name}}".to_string(),
            content: "\nHello {{name}}\n".to_string(),
        },
        Node::Ext {
            path: "e".to_string(),
            content: " more ".to_string(),
        },
    ];
    assert_eq!(
        make(&nodes, &c, false),
        Ok(vec![
            Step::CreateDir("{{name}}/d".to_string()),
            Step::WriteFile {
                path: "f_TEST".to_string(),
                content: "Hello TEST".to_string()
            },
            Step::ExtendFile {
                path: "e".to_string(),
                content: "more".to_string()
            },
        ])
    );
}

#[test]
fn steps_of_a_dry_run_are_previews() {
    let c = ctx(&[("name", "TEST")]);
    let nodes = vec![
        Node::Dir("d".to_string()),
        Node::File {
            path: "f_{{name}}".to_string(),
            content: "\nHello {{name}}\n".to_string(),
        },
        Node::Ext {
            path: "e".to_string(),
            content: "more".to_string(),
        },
    ];
    assert_eq!(
        make(&nodes, &c, true),
        Ok(vec![
            Step::Preview("\n{### DIR d ###}\n".to_string()),
            Step::Preview("\n{### FILE f_TEST ###}\nHello TEST\n".to_string()),
            Step::Preview("\n{### FILE e ###}\nmore\n".to_string()),
        ])
    );
    assert_eq!(make(&Vec::new(), &c, true), Ok(Vec::new()));
}

#[test]
fn one_escaping_path_leaves_no_step() {
    let c = ctx(&[("up", "..")]);
    let nodes = vec![
        Node::Dir("d".to_string()),
        Node::Ext {
            path: "a/{{up}}/b".to_string(),
            content: "".to_string(),
        },
    ];
    assert_eq!(make(&nodes, &c, false), Err(PathError::PathEscape));
    assert_eq!(make(&nodes, &c, true), Err(PathError::PathEscape));
    assert_eq!(plan_entity(&nodes[1], &c, false), Err(PathError::PathEscape));
    assert_eq!(
        plan_entity(&nodes[0], &c, false),
        Ok(Step::CreateDir("d".to_string()))
    );
}

#[test]
fn status_lines() {
    assert_eq!(
        status_line(&Step::CreateDir("dir1".to_string())),
        "Creating dir: dir1"
    );
    assert_eq!(
        status_line(&Step::WriteFile {
            path: "a/b".to_string(),
            content: "c".to_string()
        }),
        "Writing: a/b"
    );
    assert_eq!(
        status_line(&Step::ExtendFile {
            path: "a/b".to_string(),
            content: "c".to_string()
        }),
        "Extending: a/b"
    );
    assert_eq!(status_line(&Step::Preview("text\n".to_string())), "text\n");
    assert_eq!(
        extension_line("f.txt", &Extension::Write("c".to_string())),
        "Writing: f.txt"
    );
    assert_eq!(
        extension_line("f.txt", &Extension::Extend("c".to_string())),
        "Extending: f.txt"
    );
    assert_eq!(
        extension_line("f.txt", &Extension::Skip),
        "WARN: f.txt already contains identical content, not extending!"
    );
}

#[test]
fn candidates_are_tried_in_order() {
    assert_eq!(
        lookup_candidates("ex1", "/cfg/tmplr"),
        strings(&["ex1", "/cfg/tmplr/ex1", "/cfg/tmplr/ex1.tmplr"])
    );
}

#[test]
fn one_match_is_the_template() {
    let templates = strings(&["a/ex123.tmplr", "b.tmplr"]);
    assert_eq!(
        match_partial("ex1", &templates),
        Ok("a/ex123.tmplr".to_string())
    );
    assert_eq!(match_partial("b.", &templates), Ok("b.tmplr".to_string()));
}

#[test]
fn no_match_is_not_found() {
    let templates = strings(&["ex123.tmplr", "ex145.tmplr"]);
    assert_eq!(match_partial("ex2", &templates), Err(ResolveError::NotFound));
    assert_eq!(match_partial("x", &Vec::new()), Err(ResolveError::NotFound));
}

#[test]
fn several_matches_are_all_named() {
    let templates = strings(&["ex123.tmplr", "other.tmplr", "ex145.tmplr"]);
    let error = match_partial("ex1", &templates).unwrap_err();
    assert_eq!(
        error,
        ResolveError::AmbiguousMatch(strings(&["ex123.tmplr", "ex145.tmplr"]))
    );
    assert_eq!(
        error.message(),
        "Multiple templates matched input string\n- ex123.tmplr\n- ex145.tmplr"
    );
    assert_eq!(ResolveError::NotFound.message(), "Template not found");
    assert!(matches!(
        match_partial("", &templates),
        Err(ResolveError::AmbiguousMatch(_))
    ));
}

#[test]
fn absolute_rendered_path_is_refused() {
    let c = ctx(&[("name", ""), ("root", "/")]);
    assert_eq!(render_file("{{name}}/x", "c", &c), Err(PathError::PathEscape));
    assert_eq!(render_file("{{root}}etc/x", "c", &c), Err(PathError::PathEscape));
    assert_eq!(render_file("/etc/x", "c", &c), Err(PathError::PathEscape));
    assert_eq!(
        render_file("a{{name}}/x", "c", &c),
        Ok(rendered("a/x", "c", &[]))
    );
    let nodes = vec![
        Node::Dir("d".to_string()),
        Node::File {
            path: "{{name}}/x".to_string(),
            content: "c".to_string(),
        },
    ];
    assert_eq!(make(&nodes, &c, false), Err(PathError::PathEscape));
    assert_eq!(make(&nodes, &c, true), Err(PathError::PathEscape));
}

#[test]
fn unknown_filters_are_found_with_the_variables_of_the_file() {
    let c = ctx(&[("name", "N")]);
    assert_eq!(
        render_file("{{name|p}}.txt", "{{ $file | x }} {{ $path | upper | y }} {{nope|z}}", &c),
        Ok(rendered("N.txt", "N.txt N.TXT {{nope|z}}", &["p", "x", "y"]))
    );
    let nodes = vec![
        Node::Dir("{{name|d}}".to_string()),
        Node::File {
            path: "a".to_string(),
            content: "{{ $file | one }}".to_string(),
        },
        Node::Ext {
            path: "../{{name|two}}".to_string(),
            content: "{{name|three}}{{name|upper}}".to_string(),
        },
    ];
    assert_eq!(unknown_filters(&nodes, &c), strings(&["one", "two", "three"]));
    assert_eq!(unknown_filters(&Vec::new(), &c), Vec::<String>::new());
}
