use todo_txt::Task;

fn task(
    is_complete: bool,
    priority: Option<char>,
    description: &str,
    projects: &[&str],
    contexts: &[&str],
    attributes: &[(&str, &str)],
) -> Task {
    Task {
        is_complete,
        priority,
        description: description.to_string(),
        projects: projects.iter().map(|s| s.to_string()).collect(),
        contexts: contexts.iter().map(|s| s.to_string()).collect(),
        attributes: attributes.iter().map(|(k, v)| (k.to_string(), v.to_string())).collect(),
    }
}

fn parse(line: &str) -> Task {
    Task::new(&line.to_string())
}

#[test]
fn empty_line_is_an_empty_task() {
    assert_eq!(parse(""), task(false, None, "", &[], &[], &[]));
}

#[test]
fn priority_project_context_and_attribute() {
    assert_eq!(
        parse("(B) Write some code +rust @work due:tomorrow"),
        task(false, Some('B'), "Write some code", &["rust"], &["work"], &[("due", "tomorrow")])
    );
}

#[test]
fn completed_task_with_two_contexts() {
    assert_eq!(
        parse("x Buy eggs @shopping @home"),
        task(true, None, "Buy eggs", &[], &["shopping", "home"], &[])
    );
}

#[test]
fn completion_mark_in_the_middle_is_text() {
    let t = parse("Text x done");
    assert!(!t.is_complete);
    assert_eq!(t, task(false, None, "Text x done", &[], &[], &[]));
}

#[test]
fn two_letters_in_brackets_are_no_priority() {
    let t = parse("(AB) text");
    assert_eq!(t.priority, None);
    assert_eq!(t, task(false, None, "(AB) text", &[], &[], &[]));
}

#[test]
fn completion_mark_needs_its_space() {
    assert_eq!(parse("x"), task(false, None, "x", &[], &[], &[]));
    assert_eq!(parse("xylophone"), task(false, None, "xylophone", &[], &[], &[]));
    assert_eq!(parse("x\tBuy eggs"), task(false, None, "x\tBuy eggs", &[], &[], &[]));
    assert_eq!(parse("X Buy eggs"), task(false, None, "X Buy eggs", &[], &[], &[]));
    assert_eq!(parse(" x Buy eggs"), task(false, None, "x Buy eggs", &[], &[], &[]));
}

#[test]
fn completion_mark_alone() {
    assert_eq!(parse("x "), task(true, None, "", &[], &[], &[]));
    assert_eq!(parse("x x "), task(true, None, "x", &[], &[], &[]));
}

#[test]
fn priority_mark_needs_its_exact_shape() {
    assert_eq!(parse("(A)"), task(false, None, "(A)", &[], &[], &[]));
    assert_eq!(parse("(A)text"), task(false, None, "(A)text", &[], &[], &[]));
    assert_eq!(parse("(a) text"), task(false, None, "(a) text", &[], &[], &[]));
    assert_eq!(parse("(1) text"), task(false, None, "(1) text", &[], &[], &[]));
    assert_eq!(parse("() text"), task(false, None, "() text", &[], &[], &[]));
    assert_eq!(parse("(A)\ttext"), task(false, None, "(A)\ttext", &[], &[], &[]));
    assert_eq!(parse("text (A) more"), task(false, None, "text (A) more", &[], &[], &[]));
}

#[test]
fn priority_letters_at_both_ends_of_the_alphabet() {
    assert_eq!(parse("(A) a"), task(false, Some('A'), "a", &[], &[], &[]));
    assert_eq!(parse("(Z) z"), task(false, Some('Z'), "z", &[], &[], &[]));
    assert_eq!(parse("(@) z"), task(false, None, "(@) z", &[], &[], &[]));
    assert_eq!(parse("([) z"), task(false, None, "([) z", &[], &[], &[]));
}

#[test]
fn marks_are_read_once_and_in_order() {
    assert_eq!(parse("x (A) text"), task(true, Some('A'), "text", &[], &[], &[]));
    assert_eq!(parse("(A) x text"), task(false, Some('A'), "x text", &[], &[], &[]));
    assert_eq!(parse("x x text"), task(true, None, "x text", &[], &[], &[]));
    assert_eq!(parse("(A) (B) text"), task(false, Some('A'), "(B) text", &[], &[], &[]));
    assert_eq!(parse("x (A) "), task(true, Some('A'), "", &[], &[], &[]));
}

#[test]
fn a_marker_needs_a_word_behind_it() {
    assert_eq!(parse("+"), task(false, None, "+", &[], &[], &[]));
    assert_eq!(parse("a + b"), task(false, None, "a + b", &[], &[], &[]));
    assert_eq!(parse("@ home"), task(false, None, "@ home", &[], &[], &[]));
    assert_eq!(parse("+-a"), task(false, None, "+-a", &[], &[], &[]));
    assert_eq!(parse("++a"), task(false, None, "+", &["a"], &[], &[]));
}

#[test]
fn tags_stand_anywhere_and_keep_their_order() {
    assert_eq!(
        parse("+b first @y then +a and @x +b"),
        task(false, None, "first  then  and", &["b", "a", "b"], &["y", "x"], &[])
    );
    assert_eq!(parse("1+1"), task(false, None, "1", &["1"], &[], &[]));
    assert_eq!(parse("+a+b"), task(false, None, "", &["a", "b"], &[], &[]));
    assert_eq!(parse("me@example.com"), task(false, None, "me.com", &[], &["example"], &[]));
}

#[test]
fn a_tag_is_as_long_as_its_word() {
    assert_eq!(parse("+rust_2024!"), task(false, None, "!", &["rust_2024"], &[], &[]));
    assert_eq!(parse("+caf\u{e9}"), task(false, None, "\u{e9}", &["caf"], &[], &[]));
    assert_eq!(parse("+\u{e9}t\u{e9}"), task(false, None, "+\u{e9}t\u{e9}", &[], &[], &[]));
    assert_eq!(parse("@a-b"), task(false, None, "-b", &[], &["a"], &[]));
}

#[test]
fn attributes_are_read_from_left_to_right() {
    assert_eq!(parse("a:b"), task(false, None, "", &[], &[], &[("a", "b")]));
    assert_eq!(parse("a:b:c"), task(false, None, ":c", &[], &[], &[("a", "b")]));
    assert_eq!(parse("a:b:c:d"), task(false, None, ":", &[], &[], &[("a", "b"), ("c", "d")]));
    assert_eq!(
        parse("k:1 text k:2"),
        task(false, None, "text", &[], &[], &[("k", "1"), ("k", "2")])
    );
    assert_eq!(
        parse("due:2024-01-31"),
        task(false, None, "-01-31", &[], &[], &[("due", "2024")])
    );
}

#[test]
fn an_attribute_needs_a_word_on_both_sides() {
    assert_eq!(parse("a:"), task(false, None, "a:", &[], &[], &[]));
    assert_eq!(parse(":a"), task(false, None, ":a", &[], &[], &[]));
    assert_eq!(parse("a::b"), task(false, None, "a::b", &[], &[], &[]));
    assert_eq!(parse("a: b"), task(false, None, "a: b", &[], &[], &[]));
    assert_eq!(parse("http://host"), task(false, None, "http://host", &[], &[], &[]));
    assert_eq!(parse("caf\u{e9}:x"), task(false, None, "caf\u{e9}:x", &[], &[], &[]));
    assert_eq!(parse("x:caf\u{e9}"), task(false, None, "\u{e9}", &[], &[], &[("x", "caf")]));
}

#[test]
fn projects_come_before_contexts_before_attributes() {
    assert_eq!(parse("a+b:c"), task(false, None, "", &["b"], &[], &[("a", "c")]));
    assert_eq!(parse("a@b:c"), task(false, None, "", &[], &["b"], &[("a", "c")]));
    assert_eq!(parse("@a+b"), task(false, None, "", &["b"], &["a"], &[]));
    assert_eq!(parse("+a@b"), task(false, None, "", &["a"], &["b"], &[]));
    assert_eq!(parse("@+a b"), task(false, None, "@ b", &["a"], &[], &[]));
    assert_eq!(parse("+@a b"), task(false, None, "+ b", &[], &["a"], &[]));
    assert_eq!(parse("k:+p"), task(false, None, "k:", &["p"], &[], &[]));
    assert_eq!(parse("+p:v"), task(false, None, ":v", &["p"], &[], &[]));
    assert_eq!(parse("k:v@c"), task(false, None, "", &[], &["c"], &[("k", "v")]));
    assert_eq!(parse("k+p@c:v"), task(false, None, "", &["p"], &["c"], &[("k", "v")]));
}

#[test]
fn inner_spaces_are_kept() {
    assert_eq!(parse("a +p b"), task(false, None, "a  b", &["p"], &[], &[]));
    assert_eq!(parse("a   b"), task(false, None, "a   b", &[], &[], &[]));
    assert_eq!(parse("a +p @c k:v b"), task(false, None, "a    b", &["p"], &["c"], &[("k", "v")]));
}

#[test]
fn description_is_trimmed_of_all_white_space() {
    assert_eq!(parse("   a  "), task(false, None, "a", &[], &[], &[]));
    assert_eq!(parse("\t a \r\n"), task(false, None, "a", &[], &[], &[]));
    assert_eq!(parse("\u{a0}a\u{3000}"), task(false, None, "a", &[], &[], &[]));
    assert_eq!(parse("\u{2003}\u{85}a b\u{2028}\u{2029}"), task(false, None, "a b", &[], &[], &[]));
    assert_eq!(parse("   "), task(false, None, "", &[], &[], &[]));
    assert_eq!(parse("\u{200b}a"), task(false, None, "\u{200b}a", &[], &[], &[]));
    assert_eq!(parse("x  +p "), task(true, None, "", &["p"], &[], &[]));
}

#[test]
fn a_line_feed_inside_the_text_is_text() {
    assert_eq!(parse("one\ntwo +p"), task(false, None, "one\ntwo", &["p"], &[], &[]));
}
