use tmplr::context::VariableContext;
use tmplr::render::{filter_value_given, render, render_report};
use tmplr::template::{context_from_args, parse_variable, TemplateRequest};

fn ctx(pairs: &[(&str, &str)]) -> VariableContext {
    let mut c = VariableContext::new();
    for (k, v) in pairs {
        c.insert(k, v);
    }
    c
}

#[test]
fn missing_key_is_left_as_it_stands() {
    let c = ctx(&[("other", "x")]);
    assert_eq!(render("{{missing}}", &c), "{{missing}}");
    assert_eq!(render("a {{ missing | upper }} b", &c), "a {{ missing | upper }} b");
}

#[test]
fn upper_filter_gives_upper_case() {
    let c = ctx(&[("k", "ab")]);
    assert_eq!(render("{{k|upper}}", &c), "AB");
    assert_eq!(render("{{ k | upper }}", &c), "AB");
}

#[test]
fn upper_case_can_be_longer_than_the_value() {
    let c = ctx(&[("k", "stra\u{df}e")]);
    assert_eq!(render("{{k|upper}}", &c), "STRASSE");
}

#[test]
fn bound_key_is_replaced_everywhere() {
    let c = ctx(&[("name", "TEST")]);
    assert_eq!(render("file_{{name}}.txt", &c), "file_TEST.txt");
    assert_eq!(render("{{name}}{{name}}", &c), "TESTTEST");
    assert_eq!(render("{{  name  }}", &c), "TEST");
    assert_eq!(render("", &c), "");
    assert_eq!(render("plain", &c), "plain");
}

#[test]
fn keys_are_case_sensitive() {
    let c = ctx(&[("name", "x")]);
    assert_eq!(render("{{Name}}", &c), "{{Name}}");
}

#[test]
fn unknown_filter_leaves_the_value_and_is_reported() {
    let c = ctx(&[("k", "ab")]);
    let report = render_report("{{k|shout}} {{k|upper|loud| quiet }}", &c);
    assert_eq!(report.text, "ab AB");
    assert_eq!(report.unknown_filters, vec!["shout", "loud", "quiet"]);
}

#[test]
fn filters_of_an_unbound_key_are_not_reported() {
    let c = ctx(&[]);
    let report = render_report("{{k|shout}}", &c);
    assert_eq!(report.text, "{{k|shout}}");
    assert!(report.unknown_filters.is_empty());
}

#[test]
fn filters_apply_from_left_to_right() {
    let c = ctx(&[("k", "ab")]);
    assert_eq!(render("{{k|upper|upper}}", &c), "AB");
    assert_eq!(render("{{k||upper}}", &c), "AB");
}

#[test]
fn unterminated_placeholder_is_copied() {
    let c = ctx(&[("name", "TEST")]);
    assert_eq!(render("{{name", &c), "{{name");
    assert_eq!(render("a {{name} b", &c), "a {{name} b");
    assert_eq!(render("{{name}} and {{name", &c), "TEST and {{name");
    assert_eq!(render("{{", &c), "{{");
    assert_eq!(render("{", &c), "{");
}

#[test]
fn close_marker_is_the_first_after_the_open_marker() {
    let c = ctx(&[("a", "1"), ("{a", "2")]);
    assert_eq!(render("{{a}}}", &c), "1}");
    assert_eq!(render("{{{a}}", &c), "2");
    assert_eq!(render("{{}}", &ctx(&[("", "empty")])), "empty");
    assert_eq!(render("x}}y", &c), "x}}y");
}

#[test]
fn empty_context_changes_nothing() {
    let c = VariableContext::new();
    let text = "a {{b}} {{ c | upper }} {{d {{e}} }} {";
    assert_eq!(render(text, &c), text);
}

#[test]
fn values_are_not_rendered_again() {
    let c = ctx(&[("a", "{{b}}"), ("b", "x")]);
    assert_eq!(render("{{a}}", &c), "{{b}}");
}

#[test]
fn text_beyond_ascii_is_kept() {
    let c = ctx(&[("n\u{e9}", "\u{1F600}")]);
    assert_eq!(render("\u{e9}{{n\u{e9}}}\u{e9}", &c), "\u{e9}\u{1F600}\u{e9}");
}

#[test]
fn context_keeps_the_latest_binding() {
    let mut c = VariableContext::new();
    assert_eq!(c.get("a"), None);
    assert!(!c.contains_key("a"));
    c.insert("a", "1");
    c.insert("b", "2");
    c.insert("a", "3");
    assert_eq!(c.get("a"), Some("3".to_string()));
    assert_eq!(c.get("b"), Some("2".to_string()));
    assert!(c.contains_key("b"));
    let copy = c.clone();
    c.insert("b", "4");
    assert_eq!(copy.get("b"), Some("2".to_string()));
    assert_eq!(c.get("b"), Some("4".to_string()));
}

#[test]
fn argument_binds_at_the_first_equals_sign() {
    assert_eq!(
        parse_variable("a=b=c"),
        Some(("a".to_string(), "b=c".to_string()))
    );
    assert_eq!(parse_variable("=x"), Some(("".to_string(), "x".to_string())));
    assert_eq!(parse_variable("a="), Some(("a".to_string(), "".to_string())));
    assert_eq!(parse_variable("plain"), None);
}

#[test]
fn context_of_arguments_holds_the_name() {
    let args = vec![
        "foo=BAR".to_string(),
        "ignored".to_string(),
        "name=other".to_string(),
        "foo=BAZ".to_string(),
    ];
    let c = context_from_args("TEST", &args);
    assert_eq!(c.get("foo"), Some("BAZ".to_string()));
    assert_eq!(c.get("name"), Some("TEST".to_string()));
    assert_eq!(c.get("ignored"), None);
}

#[test]
fn request_holds_what_it_was_made_with() {
    let request = TemplateRequest::make(
        "some.tmplr".to_string(),
        "TEST".to_string(),
        ctx(&[("a", "b")]),
    );
    assert_eq!(request.path, "some.tmplr");
    assert_eq!(request.instance_name, "TEST");
    assert_eq!(request.context.get("a"), Some("b".to_string()));
}

fn chars(text: &str) -> Vec<char> {
    text.chars().collect()
}

#[test]
fn filters_go_by_the_upper_case_forms_given() {
    let uppers = vec![chars("AB"), chars("second")];
    let mut unknown = vec!["before".to_string()];
    let parts = vec![chars(" k "), chars(" upper ")];
    assert_eq!(
        filter_value_given(&chars("ab"), &uppers, &parts, &mut unknown),
        chars("AB")
    );
    let parts = vec![chars("k"), chars("x"), chars("upper"), chars(" y"), chars("upper")];
    assert_eq!(
        filter_value_given(&chars("ab"), &uppers, &parts, &mut unknown),
        chars("second")
    );
    assert_eq!(unknown, vec!["before", "x", "y"]);
    let parts = vec![chars("k"), chars("Upper")];
    assert_eq!(
        filter_value_given(&chars("ab"), &uppers, &parts, &mut unknown),
        chars("ab")
    );
    assert_eq!(
        filter_value_given(&chars("ab"), &Vec::new(), &vec![chars("k")], &mut unknown),
        chars("ab")
    );
    assert_eq!(unknown, vec!["before", "x", "y", "Upper"]);
}
