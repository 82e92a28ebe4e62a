use todo_txt::chars::{priority_letter, whitespace, word_char};
use todo_txt::Task;

fn task(
    is_complete: bool,
    priority: Option<char>,
    description: &str,
    projects: &[&str],
    contexts: &[&str],
    attributes: &[(&str, &str)],
) -> Task {
    Task {
        is_complete,
        priority,
        description: description.to_string(),
        projects: projects.iter().map(|s| s.to_string()).collect(),
        contexts: contexts.iter().map(|s| s.to_string()).collect(),
        attributes: attributes.iter().map(|(k, v)| (k.to_string(), v.to_string())).collect(),
    }
}

fn reparse(t: &Task) -> Task {
    Task::new(&t.to_string())
}

fn is_word(s: &str) -> bool {
    !s.is_empty() && s.chars().all(word_char)
}

fn is_valid(t: &Task) -> bool {
    let d = Task::new(&format!("\u{1}{}", t.description));
    t.priority.map_or(true, priority_letter)
        && t.projects.iter().all(|p| is_word(p))
        && t.contexts.iter().all(|c| is_word(c))
        && t.attributes.iter().all(|(k, v)| is_word(k) && is_word(v))
        && !t.description.starts_with(whitespace)
        && !t.description.ends_with(whitespace)
        && d.projects.is_empty()
        && d.contexts.is_empty()
        && d.attributes.is_empty()
}

fn has_priority_mark(text: &str) -> bool {
    let c: Vec<char> = text.chars().take(4).collect();
    c.len() == 4 && c[0] == '(' && priority_letter(c[1]) && c[2] == ')' && c[3] == ' '
}

fn is_unambiguous(t: &Task) -> bool {
    let bare = Task { is_complete: false, priority: None, ..t.clone() };
    let text = bare.to_string();
    (!(t.is_complete || t.priority.is_some()) || !text.is_empty())
        && (t.is_complete || t.priority.is_some() || !text.starts_with("x "))
        && (t.priority.is_some() || !has_priority_mark(&text))
}

#[test]
fn full_task_is_read_back() {
    let t = task(
        true,
        Some('C'),
        "Take out the trash",
        &["house", "chores"],
        &["home"],
        &[("day", "wednesdays"), ("t", "1")],
    );
    assert!(is_valid(&t) && is_unambiguous(&t));
    assert_eq!(reparse(&t), t);
}

#[test]
fn plain_tasks_are_read_back() {
    for t in [
        task(false, None, "", &[], &[], &[]),
        task(false, None, "a", &[], &[], &[]),
        task(false, None, "", &["p"], &[], &[]),
        task(true, None, "", &[], &["c"], &[]),
        task(false, Some('Z'), "", &[], &[], &[("k", "v")]),
        task(true, Some('A'), "a  b", &["p", "p"], &["c", "c"], &[("k", "v"), ("k", "v")]),
        task(false, None, "x", &[], &[], &[]),
        task(true, None, "x y", &[], &[], &[]),
        task(false, Some('A'), "(B) y", &[], &[], &[]),
        task(false, None, "(A)", &[], &[], &[]),
        task(false, None, "one\ntwo", &["p"], &[], &[]),
        task(false, None, "+ @ : a: :b", &["p"], &[], &[]),
    ] {
        assert!(is_valid(&t) && is_unambiguous(&t), "{:?}", t);
        assert_eq!(reparse(&t), t);
    }
}

#[test]
fn a_mark_with_nothing_behind_it_is_not_read_back() {
    for t in [
        task(true, None, "", &[], &[], &[]),
        task(false, Some('A'), "", &[], &[], &[]),
        task(true, Some('A'), "", &[], &[], &[]),
    ] {
        assert!(is_valid(&t) && !is_unambiguous(&t));
        assert_ne!(reparse(&t), t);
    }
    assert_eq!(
        reparse(&task(true, None, "", &[], &[], &[])),
        task(false, None, "x", &[], &[], &[])
    );
}

#[test]
fn a_text_that_begins_like_a_mark_is_read_as_the_mark() {
    for t in [
        task(false, None, "x y", &[], &[], &[]),
        task(false, None, "x", &["p"], &[], &[]),
        task(false, None, "(A) y", &[], &[], &[]),
        task(true, None, "(A) y", &[], &[], &[]),
        task(false, None, "(A)", &[], &["c"], &[]),
    ] {
        assert!(is_valid(&t) && !is_unambiguous(&t), "{:?}", t);
        assert_ne!(reparse(&t), t);
    }
    assert_eq!(
        reparse(&task(false, None, "x", &["p"], &[], &[])),
        task(true, None, "", &["p"], &[], &[])
    );
}

#[test]
fn what_is_read_is_valid() {
    for line in [
        "",
        "x ",
        "(A) ",
        "x (B) a +p @c k:v",
        "a+b:c",
        "k:+p",
        "a:b:c:d:e",
        "@a+b@c+d",
        " \u{a0} +p a:b:c \u{3000}",
        "w+p:v",
        "a:+p@c b",
    ] {
        let t = Task::new(&line.to_string());
        assert!(is_valid(&t), "{:?}", t);
    }
}

/// The lines over a small alphabet, up to a length, in order.
fn lines(alphabet: &[char], max_len: usize) -> Vec<String> {
    let mut all = vec![String::new()];
    let mut last = vec![String::new()];
    for _ in 0..max_len {
        let mut next = Vec::new();
        for s in &last {
            for c in alphabet {
                let mut t = s.clone();
                t.push(*c);
                next.push(t);
            }
        }
        all.extend(next.iter().cloned());
        last = next;
    }
    all
}

#[test]
fn every_short_line_is_read_as_a_valid_task() {
    for line in lines(&['x', ' ', '(', 'A', ')', '+', '@', ':', 'b'], 5) {
        let t = Task::new(&line);
        assert!(is_valid(&t), "{:?} from {:?}", t, line);
    }
}

#[test]
fn every_short_line_is_read_back_exactly_when_unambiguous() {
    for line in lines(&['x', ' ', '(', 'A', ')', '+', '@', ':', 'b'], 5) {
        let t = Task::new(&line);
        assert_eq!(reparse(&t) == t, is_unambiguous(&t), "{:?} from {:?}", t, line);
    }
}
