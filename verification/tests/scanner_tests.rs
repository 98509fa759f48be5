use tmplr::empty_dir_scanner::EmptyDirScanner;
use tmplr::file_scanner::FileScanner;
use tmplr::list_templates::TemplateTree;
use tmplr::template::unknown_commands;

#[test]
fn walk_reads_the_directory_found_last_first() {
    let mut scanner = FileScanner::new("root");
    assert_eq!(scanner.next_dir(), Some("root".to_string()));
    assert_eq!(scanner.next_dir(), None);
    assert_eq!(scanner.visit("root/a".to_string(), true), None);
    assert_eq!(
        scanner.visit("root/f.txt".to_string(), false),
        Some("root/f.txt".to_string())
    );
    assert_eq!(scanner.visit("root/b".to_string(), true), None);
    assert_eq!(scanner.next_dir(), Some("root/b".to_string()));
    assert_eq!(scanner.next_dir(), Some("root/a".to_string()));
    assert_eq!(scanner.next_dir(), None);
}

#[test]
fn walk_hands_out_files_with_the_wanted_extension() {
    let mut scanner = FileScanner::new_with_extension("root", "tmplr".to_string());
    assert_eq!(scanner.next_dir(), Some("root".to_string()));
    assert_eq!(
        scanner.visit("root/a.tmplr".to_string(), false),
        Some("root/a.tmplr".to_string())
    );
    assert_eq!(scanner.visit("root/a.txt".to_string(), false), None);
    assert_eq!(scanner.visit("root/tmplr".to_string(), false), None);
    assert_eq!(scanner.visit("root/.tmplr".to_string(), false), None);
    assert_eq!(scanner.visit("root/d.tmplr".to_string(), true), None);
    assert_eq!(scanner.next_dir(), Some("root/d.tmplr".to_string()));
}

#[test]
fn empty_directories_are_known_at_the_end() {
    let mut scanner = EmptyDirScanner::new(".");
    assert_eq!(scanner.next_dir(), Some(".".to_string()));
    scanner.visit("./file.txt".to_string(), false);
    scanner.visit("./dir_empty".to_string(), true);
    scanner.visit("./a".to_string(), true);
    scanner.visit("./d".to_string(), true);
    assert_eq!(scanner.next_dir(), Some("./d".to_string()));
    scanner.visit("./d/e".to_string(), true);
    assert_eq!(scanner.next_dir(), Some("./d/e".to_string()));
    scanner.visit("./d/e/TEST.txt".to_string(), false);
    assert_eq!(scanner.next_dir(), Some("./a".to_string()));
    scanner.visit("./a/b".to_string(), true);
    assert_eq!(scanner.next_dir(), Some("./a/b".to_string()));
    assert_eq!(scanner.next_dir(), Some("./dir_empty".to_string()));
    assert_eq!(scanner.next_dir(), None);
    assert_eq!(
        scanner.finish(),
        vec![
            "./dir_empty".to_string(),
            "./a".to_string(),
            "./a/b".to_string()
        ]
    );
}

#[test]
fn root_is_never_reported_as_empty() {
    let mut scanner = EmptyDirScanner::new("r");
    assert_eq!(scanner.next_dir(), Some("r".to_string()));
    assert_eq!(scanner.finish(), Vec::<String>::new());
    let mut scanner = EmptyDirScanner::new(".");
    assert_eq!(scanner.next_dir(), Some(".".to_string()));
    scanner.visit("./x".to_string(), true);
    assert_eq!(scanner.next_dir(), Some("./x".to_string()));
    assert_eq!(scanner.next_dir(), None);
    assert_eq!(scanner.finish(), vec!["./x".to_string()]);
}

#[test]
fn unknown_commands_are_named() {
    let text = "{### FILE a ###}x{### NOPE b ###}{### ###}{### dir c ###}{###  what is this  ###}{### open";
    assert_eq!(
        unknown_commands(text),
        vec!["NOPE".to_string(), "".to_string(), "what".to_string()]
    );
    assert_eq!(unknown_commands("no markers"), Vec::<String>::new());
    assert_eq!(
        unknown_commands("{### X ###}{### FILE a/../b ###}{### Y ###}"),
        vec!["X".to_string(), "Y".to_string()]
    );
}

#[test]
fn copy_of_a_tree_is_the_same_tree() {
    let tree = TemplateTree::from_path("a/b/c.tmplr").merge(TemplateTree::from_path("a/d"));
    let copy = tree.clone();
    assert_eq!(copy, tree);
    assert_eq!(copy.0[0].clone(), tree.0[0]);
}
