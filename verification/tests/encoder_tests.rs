use tmplr::gen_template::{
    create_dir_node, create_node, create_template, create_template_generic, empty_directories,
    replace_chars_flagged, replace_word_bounded, template_file_name, write_template, CreateArgs,
    CreateError, SourceEntry,
};
use tmplr::path_guard::PathError;
use tmplr::template::{read_template, Node};

fn args(root: &str, name: &str, no_replace: bool) -> CreateArgs {
    CreateArgs {
        path: root.to_string(),
        name: name.to_string(),
        no_replace,
        files: None,
    }
}

fn strings(list: &[&str]) -> Vec<String> {
    list.iter().map(|s| s.to_string()).collect()
}

#[test]
fn whole_words_are_replaced() {
    assert_eq!(replace_word_bounded("cat", "a", "{{ name }}"), "cat");
    assert_eq!(replace_word_bounded("a", "a", "{{ name }}"), "{{ name }}");
    assert_eq!(
        replace_word_bounded("a cat, a-b (a) a", "a", "X"),
        "X cat, X-b (X) X"
    );
    assert_eq!(
        replace_word_bounded("Content: TEST", "TEST", "{{ name }}"),
        "Content: {{ name }}"
    );
    assert_eq!(
        replace_word_bounded("d/e/TEST.txt", "TEST", "{{ name }}"),
        "d/e/{{ name }}.txt"
    );
}

#[test]
fn parts_of_words_are_kept() {
    assert_eq!(replace_word_bounded("TESTS TEST1 aTEST", "TEST", "X"), "TESTS TEST1 aTEST");
    assert_eq!(replace_word_bounded("TEST_TEST", "TEST", "X"), "X_X");
    assert_eq!(replace_word_bounded("\u{e9}t\u{e9}", "t", "X"), "\u{e9}t\u{e9}");
    assert_eq!(replace_word_bounded("\u{e9} t \u{e9}", "t", "X"), "\u{e9} X \u{e9}");
    assert_eq!(replace_word_bounded("\u{4e2d}a", "a", "X"), "\u{4e2d}a");
    assert_eq!(replace_word_bounded("\u{2014}a\u{2014}", "a", "X"), "\u{2014}X\u{2014}");
}

#[test]
fn occurrences_do_not_overlap() {
    assert_eq!(replace_word_bounded("aaa", "aa", "X"), "aaa");
    assert_eq!(replace_word_bounded("xa a a", "a a", "X"), "xa a a");
    assert_eq!(replace_word_bounded("a-a-a", "a-a", "X"), "X-a");
    assert_eq!(replace_word_bounded("a a a a", "a a", "X"), "X X");
}

#[test]
fn edge_cases_of_replacing() {
    assert_eq!(replace_word_bounded("abc", "", "X"), "abc");
    assert_eq!(replace_word_bounded("", "a", "X"), "");
    assert_eq!(replace_word_bounded("", "", "X"), "");
    assert_eq!(replace_word_bounded("a", "abc", "X"), "a");
    assert_eq!(replace_word_bounded("a b", "a", ""), " b");
    assert_eq!(replace_word_bounded("a", "a", "a a"), "a a");
}

#[test]
fn nodes_carry_the_placeholder() {
    let a = args(".", "TEST", false);
    assert_eq!(
        create_node(&a, "d/TEST.txt", "I am TEST, not TESTS"),
        Ok(Node::File {
            path: "d/{{ name }}.txt".to_string(),
            content: "I am {{ name }}, not TESTS".to_string(),
        })
    );
    assert_eq!(
        create_dir_node(&a, "TEST/sub"),
        Ok(Node::Dir("{{ name }}/sub".to_string()))
    );
}

#[test]
fn nodes_keep_the_name_where_replacing_is_off() {
    let a = args(".", "TEST", true);
    assert_eq!(
        create_node(&a, "TEST.txt", "TEST"),
        Ok(Node::File {
            path: "TEST.txt".to_string(),
            content: "TEST".to_string(),
        })
    );
    assert_eq!(create_dir_node(&a, "TEST"), Ok(Node::Dir("TEST".to_string())));
}

#[test]
fn nodes_with_escaping_paths_are_refused() {
    let a = args(".", "TEST", false);
    assert_eq!(create_dir_node(&a, "../x"), Err(PathError::PathEscape));
    assert_eq!(create_node(&a, "a/../x", "c"), Err(PathError::PathEscape));
    assert_eq!(create_dir_node(&args(".", "x", true), ".."), Err(PathError::PathEscape));
}

#[test]
fn template_text_has_markers_and_contents() {
    let nodes = vec![
        Node::Dir("a/b".to_string()),
        Node::File {
            path: "f.txt".to_string(),
            content: "hello".to_string(),
        },
        Node::Ext {
            path: "g.txt".to_string(),
            content: "".to_string(),
        },
    ];
    assert_eq!(
        write_template(&nodes),
        "{### DIR a/b ###}\n{### FILE f.txt ###}\nhello\n{### EXT g.txt ###}\n\n"
    );
    assert_eq!(write_template(&Vec::new()), "");
}

#[test]
fn written_template_decodes_to_the_same_entities() {
    let nodes = vec![
        Node::Dir("empty dir".to_string()),
        Node::File {
            path: "src/{{ name }}.rs".to_string(),
            content: "fn main() {\n    // {## not a marker ###}\n}\n".to_string(),
        },
        Node::Dir("x".to_string()),
        Node::Ext {
            path: "notes".to_string(),
            content: "".to_string(),
        },
        Node::File {
            path: "".to_string(),
            content: "{{ name }}".to_string(),
        },
    ];
    let decoded = read_template(&write_template(&nodes)).unwrap();
    assert_eq!(decoded.len(), nodes.len());
    assert_eq!(decoded[0], nodes[0]);
    assert_eq!(
        decoded[1],
        Node::File {
            path: "src/{{ name }}.rs".to_string(),
            content: "\nfn main() {\n    // {## not a marker ###}\n}\n\n".to_string(),
        }
    );
    assert_eq!(decoded[2], nodes[2]);
    assert_eq!(
        decoded[3],
        Node::Ext {
            path: "notes".to_string(),
            content: "\n\n".to_string(),
        }
    );
    assert_eq!(
        decoded[4],
        Node::File {
            path: "".to_string(),
            content: "\n{{ name }}\n".to_string(),
        }
    );
}

#[test]
fn paths_are_written_relative_to_the_root() {
    let a = args("ROOT", "TEST", false);
    let files = vec![("ROOT/dir1/TEST.txt".to_string(), "Content: TEST".to_string())];
    let dirs = strings(&["ROOT/empty"]);
    assert_eq!(
        create_template(&a, &files, &dirs),
        Ok("{### DIR empty ###}\n{### FILE dir1/{{ name }}.txt ###}\nContent: {{ name }}\n"
            .to_string())
    );
}

#[test]
fn name_in_the_root_is_not_replaced() {
    let a = args("TEST", "TEST", false);
    let files = vec![("TEST/TEST.txt".to_string(), "x".to_string())];
    assert_eq!(
        create_template(&a, &files, &Vec::new()),
        Ok("{### FILE {{ name }}.txt ###}\nx\n".to_string())
    );
}

#[test]
fn listed_files_leave_directories_out() {
    let mut a = args(".", "TEST", false);
    a.files = Some(strings(&["./a.txt"]));
    let files = vec![("./a.txt".to_string(), "A".to_string())];
    let dirs = strings(&["./empty"]);
    assert_eq!(
        create_template(&a, &files, &dirs),
        Ok("{### FILE a.txt ###}\nA\n".to_string())
    );
}

#[test]
fn path_outside_the_root_is_refused() {
    let a = args("ROOT", "TEST", false);
    let files = vec![("OTHER/file.txt".to_string(), "x".to_string())];
    assert_eq!(
        create_template(&a, &files, &Vec::new()),
        Err(CreateError::Path(PathError::PathEscape))
    );
}

#[test]
fn path_that_has_no_relative_form_is_refused() {
    let a = args("/abs/root", "TEST", false);
    let entries = vec![
        SourceEntry::Dir {
            path: "/abs/root/ok".to_string(),
        },
        SourceEntry::File {
            path: "relative/file.txt".to_string(),
            content: "x".to_string(),
        },
    ];
    assert_eq!(
        create_template_generic(&a, &entries),
        Err(CreateError::NotRelative)
    );
    assert_eq!(
        create_template_generic(&args("../b", "T", false), &entries[1..].to_vec()),
        Err(CreateError::NotRelative)
    );
}

#[test]
fn first_failing_entry_decides_the_error() {
    let a = args("ROOT", "TEST", false);
    let entries = vec![
        SourceEntry::File {
            path: "ELSE/x".to_string(),
            content: "".to_string(),
        },
        SourceEntry::Dir {
            path: "/abs".to_string(),
        },
    ];
    assert_eq!(
        create_template_generic(&a, &entries),
        Err(CreateError::Path(PathError::PathEscape))
    );
    assert_eq!(
        create_template_generic(&args("/r", "T", false), &Vec::new()),
        Ok(String::new())
    );
}

#[test]
fn create_error_messages() {
    assert_eq!(
        CreateError::NotRelative.message(),
        "Path is not below the template root"
    );
    assert_eq!(
        CreateError::Path(PathError::PathEscape).message(),
        "Target reaches outside parent directory"
    );
    assert_eq!(CreateError::Path(PathError::NotAPath).message(), "Not a path");
}

#[test]
fn empty_directories_hold_no_file_at_any_depth() {
    let dirs = strings(&["./a", "./a/b", "./a/b/c", "./d", "./d/e", "./dir_empty", "./d2"]);
    let files = strings(&["./file.txt", "./d/e/x.txt", "./d23/y"]);
    assert_eq!(
        empty_directories(&dirs, &files),
        strings(&["./a", "./a/b", "./a/b/c", "./dir_empty", "./d2"])
    );
    assert_eq!(empty_directories(&Vec::new(), &files), Vec::<String>::new());
    assert_eq!(empty_directories(&dirs, &Vec::new()), dirs);
}

#[test]
fn template_file_is_named_after_the_instance() {
    assert_eq!(template_file_name("TEST"), "TEST.tmplr");
    assert_eq!(template_file_name(""), ".tmplr");
}

#[test]
fn absolute_paths_are_refused_in_a_template() {
    let a = args(".", "TEST", false);
    assert_eq!(create_dir_node(&a, "/abs"), Err(PathError::PathEscape));
    assert_eq!(create_node(&a, "/abs/f", "c"), Err(PathError::PathEscape));
    let files = vec![("/elsewhere/f.txt".to_string(), "x".to_string())];
    assert_eq!(
        create_template(&a, &files, &Vec::new()),
        Err(CreateError::Path(PathError::PathEscape))
    );
}

fn flagged(text: &str, flags: &str, target: &str, replacement: &str) -> String {
    let s: Vec<char> = text.chars().collect();
    let alnum: Vec<bool> = flags.chars().map(|f| f == 'x').collect();
    let t: Vec<char> = target.chars().collect();
    let r: Vec<char> = replacement.chars().collect();
    replace_chars_flagged(&s, &alnum, &t, &r).iter().collect()
}

#[test]
fn replacing_goes_by_the_flags_given() {
    assert_eq!(flagged("cat", "xxx", "a", "{{ name }}"), "cat");
    assert_eq!(flagged("a", "x", "a", "{{ name }}"), "{{ name }}");
    assert_eq!(flagged("a cat", "x.xxx", "a", "N"), "N cat");
    assert_eq!(flagged("cat", "...", "a", "N"), "cNt");
    assert_eq!(flagged("cat", "x..", "a", "N"), "cat");
    assert_eq!(flagged("cat", "..x", "a", "N"), "cat");
    assert_eq!(flagged("a-a", "x.x", "a", "N"), "N-N");
    assert_eq!(flagged("a-a", "xxx", "a", "N"), "a-a");
    assert_eq!(flagged("abc", "xxx", "", "N"), "abc");
    assert_eq!(flagged("", "", "a", "N"), "");
}
