use tmplr::list_templates::{
    list_text, DepthPrint, Dirname, TemplateFile, TemplateNode, TemplateTree,
};

fn single_child(node: TemplateNode) -> TemplateTree {
    TemplateTree(vec![node])
}

fn t_dir(s: &str, tt: TemplateTree) -> TemplateNode {
    TemplateNode::Dir(Dirname(String::from(s)), tt)
}

fn t_file(s: &str) -> TemplateNode {
    TemplateNode::File(TemplateFile(String::from(s)))
}

#[test]
fn template_tree_from_pathbuf() {
    let got: TemplateTree = TemplateTree::from_path("a/b/c.tmplr");
    let expected: TemplateTree = single_child(t_dir(
        "a",
        single_child(t_dir("b", single_child(t_file("c.tmplr")))),
    ));

    assert_eq!(got, expected);
}

#[test]
fn template_tree_merge() {
    let a: TemplateTree = TemplateTree::from_path("a/b/c.tmplr");
    let b: TemplateTree = TemplateTree::from_path("a/b/d.tmplr");
    let c: TemplateTree = TemplateTree::from_path("a/b/e.tmplr");
    let got = a.merge(b).merge(c);
    let expected: TemplateTree = single_child(t_dir(
        "a",
        single_child(t_dir(
            "b",
            TemplateTree(vec![
                t_file("c.tmplr"),
                t_file("d.tmplr"),
                t_file("e.tmplr"),
            ]),
        )),
    ));

    assert_eq!(got, expected);
}

#[test]
fn template_tree_to_string() {
    let a: TemplateTree = TemplateTree::from_path("a/b/c.tmplr");
    let b: TemplateTree = TemplateTree::from_path("a/b/d.tmplr");
    let c: TemplateTree = TemplateTree::from_path("a/b/e.tmplr");
    let got = a.merge(b).merge(c).string_at_depth(0);
    let expected: String = String::from(
        r#"
a/
  b/
    - c.tmplr
    - d.tmplr
    - e.tmplr
            "#,
    )
    .trim_end_matches(' ')
    .to_owned();

    assert_eq!(got, expected);
}

#[test]
fn path_without_names_gives_an_empty_tree() {
    assert_eq!(TemplateTree::from_path(""), TemplateTree(vec![]));
    assert_eq!(TemplateTree::from_path("/./../"), TemplateTree(vec![]));
}

#[test]
fn unnamed_components_are_passed_over() {
    assert_eq!(
        TemplateTree::from_path("./a//b/../c.tmplr"),
        single_child(t_dir(
            "a",
            single_child(t_dir("b", single_child(t_file("c.tmplr"))))
        ))
    );
    assert_eq!(
        TemplateTree::from_path("x.tmplr"),
        single_child(t_file("x.tmplr"))
    );
}

#[test]
fn merge_puts_files_first_and_keeps_their_order() {
    let a = TemplateTree(vec![
        t_dir("d", single_child(t_file("z"))),
        t_file("b"),
        t_dir("e", TemplateTree(vec![])),
    ]);
    let b = TemplateTree(vec![
        t_file("a"),
        t_dir("d", single_child(t_dir("d", single_child(t_file("y"))))),
        t_file("b"),
    ]);
    assert_eq!(
        a.merge(b),
        TemplateTree(vec![
            t_file("b"),
            t_file("a"),
            t_file("b"),
            t_dir(
                "d",
                TemplateTree(vec![t_file("z"), t_dir("d", single_child(t_file("y")))])
            ),
            t_dir("e", TemplateTree(vec![])),
        ])
    );
}

#[test]
fn merge_with_an_empty_tree() {
    let a = TemplateTree::from_path("a/b");
    assert_eq!(
        a.merge(TemplateTree(vec![])),
        TemplateTree::from_path("a/b")
    );
    assert_eq!(
        TemplateTree(vec![]).merge(TemplateTree(vec![])),
        TemplateTree(vec![])
    );
}

#[test]
fn tree_of_paths_is_the_merge_of_their_trees() {
    let paths: Vec<String> = ["e/f/ex4.tmplr", "a/b/ex2.tmplr", "top.tmplr", "a/b/ex1.tmplr"]
        .iter()
        .map(|p| p.to_string())
        .collect();
    assert_eq!(
        TemplateTree::from_paths(&paths),
        TemplateTree(vec![
            t_file("top.tmplr"),
            t_dir(
                "a",
                single_child(t_dir(
                    "b",
                    TemplateTree(vec![t_file("ex1.tmplr"), t_file("ex2.tmplr")])
                ))
            ),
            t_dir("e", single_child(t_dir("f", single_child(t_file("ex4.tmplr"))))),
        ])
    );
    assert_eq!(TemplateTree::from_paths(&Vec::new()), TemplateTree(vec![]));
}

#[test]
fn directories_are_shown_before_files_and_names_in_order() {
    let tree = TemplateTree(vec![
        t_file("b"),
        t_dir("z", single_child(t_file("q"))),
        t_file("B"),
        t_dir("y", TemplateTree(vec![])),
        t_file("a"),
    ]);
    assert_eq!(
        tree.string_at_depth(0),
        "\ny/\n\nz/\n  - q\n- B\n- a\n- b\n"
    );
    assert_eq!(
        tree.string_at_depth(3),
        "   y/\n   z/\n     - q\n   - B\n   - a\n   - b\n"
    );
    assert_eq!(TemplateTree(vec![]).string_at_depth(0), "");
}

#[test]
fn lines_of_single_things() {
    assert_eq!(Dirname("d".to_string()).string_at_depth(0), "\nd/");
    assert_eq!(Dirname("d".to_string()).string_at_depth(2), "  d/");
    assert_eq!(TemplateFile("f.tmplr".to_string()).string_at_depth(0), "- f.tmplr");
    assert_eq!(TemplateFile("x/f.tmplr".to_string()).string_at_depth(4), "    - f.tmplr");
    assert_eq!(TemplateFile("..".to_string()).string_at_depth(1), " - ..");
    assert_eq!(t_file("f").string_at_depth(1), " - f\n");
    assert_eq!(
        t_dir("d", single_child(t_file("f"))).string_at_depth(65534),
        format!("{}d/\n{}- f\n", " ".repeat(65534), " ".repeat(65535))
    );
}

#[test]
fn listing_text() {
    assert_eq!(
        list_text("/cfg/tmplr", &Vec::new()),
        "No templates found in: /cfg/tmplr\n"
    );
    let paths: Vec<String> = ["b.tmplr", "d/a.tmplr"].iter().map(|p| p.to_string()).collect();
    assert_eq!(
        list_text("/cfg/tmplr", &paths),
        "Listing template dir: /cfg/tmplr\n\nd/\n  - a.tmplr\n- b.tmplr\n\n"
    );
}
