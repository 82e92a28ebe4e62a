use regex::Regex;
use todo_txt::Task;

/// A line read with regular expressions that say the same as the format.
fn by_patterns(line: &str) -> Task {
    let marks = Regex::new(r"(?s)\A(x )?(\([A-Z]\) )?(.*)\z").unwrap();
    let project = Regex::new(r"\+[A-Za-z0-9_]+").unwrap();
    let context = Regex::new(r"@[A-Za-z0-9_]+").unwrap();
    let attribute = Regex::new(r"([A-Za-z0-9_]+):([A-Za-z0-9_]+)").unwrap();

    let found = marks.captures(line).unwrap();
    let is_complete = found.get(1).is_some();
    let priority = found.get(2).and_then(|m| m.as_str().chars().nth(1));
    let text = found.get(3).unwrap().as_str();

    let projects = project.find_iter(text).map(|m| m.as_str()[1..].to_string()).collect();
    let text = project.replace_all(text, "").to_string();
    let contexts = context.find_iter(&text).map(|m| m.as_str()[1..].to_string()).collect();
    let text = context.replace_all(&text, "").to_string();
    let attributes = attribute
        .captures_iter(&text)
        .map(|c| (c[1].to_string(), c[2].to_string()))
        .collect();
    let text = attribute.replace_all(&text, "").to_string();

    Task { is_complete, priority, description: text.trim().to_string(), projects, contexts, attributes }
}

fn lines(alphabet: &[char], max_len: usize) -> Vec<String> {
    let mut all = vec![String::new()];
    let mut last = vec![String::new()];
    for _ in 0..max_len {
        let mut next = Vec::new();
        for s in &last {
            for c in alphabet {
                let mut t = s.clone();
                t.push(*c);
                next.push(t);
            }
        }
        all.extend(next.iter().cloned());
        last = next;
    }
    all
}

#[test]
fn given_lines_are_read_as_the_patterns_read_them() {
    for line in [
        "",
        "(B) Write some code +rust @work due:tomorrow",
        "x Buy eggs @shopping @home",
        "Text x done",
        "(AB) text",
        "x (A) 2024-01-01 Call +mum:dad @phone@home a:b:c d::e f: :g h:+i",
        "me@example.com http://host:80/path?q=a+b",
        "  +a  @b  c:d  ",
        "caf\u{e9}:x +\u{e9}t\u{e9} @na\u{ef}ve \u{3000}",
        "one\ntwo +p\n",
        "x\n(A)\n",
    ] {
        assert_eq!(Task::new(&line.to_string()), by_patterns(line), "{:?}", line);
    }
}

#[test]
fn short_lines_are_read_as_the_patterns_read_them() {
    for line in lines(&['x', ' ', '(', 'A', ')', '+', '@', ':', 'b', '\n'], 4) {
        assert_eq!(Task::new(&line), by_patterns(&line), "{:?}", line);
    }
}

#[test]
fn long_lines_are_read_as_the_patterns_read_them() {
    let alphabet = ['x', ' ', '(', 'A', ')', '+', '@', ':', 'b', '_', '7', '\t', '-', '\u{e9}'];
    let mut state: u64 = 0x2545f4914f6cdd1d;
    for _ in 0..3000 {
        let mut line = String::new();
        state = state.wrapping_mul(6364136223846793005).wrapping_add(1442695040888963407);
        let len = (state >> 33) % 24;
        for _ in 0..len {
            state = state.wrapping_mul(6364136223846793005).wrapping_add(1442695040888963407);
            line.push(alphabet[((state >> 33) % alphabet.len() as u64) as usize]);
        }
        assert_eq!(Task::new(&line), by_patterns(&line), "{:?}", line);
    }
}
