//! A task, and the two ways between a task and its line.

use vstd::prelude::*;
use crate::chars::priority_letter;
use crate::line::{
    after_completion_mark, attribute_tail, body_of, completion_mark, has_completion_mark,
    has_priority_mark, joined, parse, priority_mark, serialize, tag_tail, written_text, TaskView,
};
use crate::scan::{
    names_view, pairs_view, split_attributes, split_tags, CONTEXT_MARKER, PROJECT_MARKER,
};
use crate::text::{chars_of, push_str, string_of};
use crate::trim::{end_of_trimmed, start_of_trimmed};
use crate::validity::lemma_parse_is_valid;

verus! {

/// A task.
#[derive(Debug, Clone, PartialEq)]
pub struct Task {
    pub is_complete: bool,
    pub priority: Option<char>,
    pub description: String,
    pub projects: Vec<String>,
    pub contexts: Vec<String>,
    pub attributes: Vec<(String, String)>,
}

impl View for Task {
    type V = TaskView;

    open spec fn view(&self) -> TaskView {
        TaskView {
            is_complete: self.is_complete,
            priority: self.priority,
            description: self.description@,
            projects: names_view(self.projects@),
            contexts: names_view(self.contexts@),
            attributes: pairs_view(self.attributes@),
        }
    }
}

/// Appends the tags of `names` to `out`, each behind a space and the
/// marker.
fn push_tags(out: &mut Vec<char>, names: &Vec<String>, marker: char)
    ensures
        final(out)@ == old(out)@ + tag_tail(names_view(names@), marker),
{
    let ghost all = names_view(names@);
    let mut i: usize = 0;
    assert(all.skip(0) =~= all);
    while i < names.len()
        invariant
            i <= names.len(),
            all == names_view(names@),
            out@ + tag_tail(all.skip(i as int), marker) == old(out)@ + tag_tail(all, marker),
        decreases names.len() - i,
    {
        let ghost before = out@;
        let ghost left = all.skip(i as int);
        out.push(' ');
        out.push(marker);
        push_str(out, names[i].as_str());
        proof {
            assert(left.skip(1) =~= all.skip(i + 1));
            assert(left[0] == names[i as int]@);
            assert(out@ + tag_tail(all.skip(i + 1), marker) =~= before + tag_tail(left, marker));
        }
        i += 1;
    }
    assert(out@ + Seq::<char>::empty() =~= out@);
}

/// Appends the attributes of `pairs` to `out` as `key:value`, each behind a
/// space.
fn push_attributes(out: &mut Vec<char>, pairs: &Vec<(String, String)>)
    ensures
        final(out)@ == old(out)@ + attribute_tail(pairs_view(pairs@)),
{
    let ghost all = pairs_view(pairs@);
    let mut i: usize = 0;
    assert(all.skip(0) =~= all);
    while i < pairs.len()
        invariant
            i <= pairs.len(),
            all == pairs_view(pairs@),
            out@ + attribute_tail(all.skip(i as int)) == old(out)@ + attribute_tail(all),
        decreases pairs.len() - i,
    {
        let ghost before = out@;
        let ghost left = all.skip(i as int);
        out.push(' ');
        push_str(out, pairs[i].0.as_str());
        out.push(':');
        push_str(out, pairs[i].1.as_str());
        proof {
            assert(left.skip(1) =~= all.skip(i + 1));
            assert(left[0] == (pairs[i as int].0@, pairs[i as int].1@));
            assert(out@ + attribute_tail(all.skip(i + 1)) =~= before + attribute_tail(left));
        }
        i += 1;
    }
    assert(out@ + Seq::<char>::empty() =~= out@);
}

impl Task {
    /// Creates a new task from a line.
    ///
    /// Every line holds a task: what does not have the exact shape of a
    /// mark, a tag or an attribute stays in the description.
    pub fn new(task: &String) -> (result: Self)
        ensures
            result@ == parse(task@),
            result.is_complete <==> has_completion_mark(task@),
            result.priority is Some <==> has_priority_mark(after_completion_mark(task@)),
            result@.is_valid(),
    {
        let line = chars_of(task.as_str());
        let mut from: usize = 0;
        let is_complete = line.len() >= 2 && line[0] == 'x' && line[1] == ' ';
        if is_complete {
            from = 2;
        }
        let mut priority: Option<char> = None;
        assert(after_completion_mark(line@) =~= line@.skip(from as int));
        if line.len() - from >= 4 && line[from] == '(' && priority_letter(line[from + 1])
            && line[from + 2] == ')' && line[from + 3] == ' ' {
            priority = Some(line[from + 1]);
            assert(line@.skip(from as int).skip(4) =~= line@.skip(from + 4));
            from = from + 4;
        }
        assert(body_of(line@) =~= line@.skip(from as int));
        let (projects, no_projects) = split_tags(&line, from, PROJECT_MARKER);
        assert(no_projects@.skip(0) =~= no_projects@);
        let (contexts, no_contexts) = split_tags(&no_projects, 0, CONTEXT_MARKER);
        let (attributes, rest) = split_attributes(&no_contexts);
        let start = start_of_trimmed(&rest);
        let end = end_of_trimmed(&rest, start);
        let description = string_of(&rest, start, end);
        proof {
            lemma_parse_is_valid(task@);
        }
        Task { is_complete, priority, description, projects, contexts, attributes }
    }

    /// Returns the task as a line.
    ///
    /// The parts stand in canonical order whatever their order was in the
    /// line that the task was read from.
    pub fn to_string(&self) -> (line: String)
        ensures
            line@ == serialize(self@),
    {
        let mut out: Vec<char> = Vec::new();
        if self.is_complete {
            out.push('x');
            out.push(' ');
        }
        match self.priority {
            Some(letter) => {
                out.push('(');
                out.push(letter);
                out.push(')');
                out.push(' ');
            },
            None => {},
        }
        let ghost marks = out@;
        assert(marks =~= completion_mark(self.is_complete) + priority_mark(self.priority));
        push_str(&mut out, self.description.as_str());
        push_tags(&mut out, &self.projects, PROJECT_MARKER);
        push_tags(&mut out, &self.contexts, CONTEXT_MARKER);
        push_attributes(&mut out, &self.attributes);
        assert(out@ =~= marks + written_text(self@));
        assert(out@.skip(0) =~= out@);
        let end = end_of_trimmed(&out, 0);
        string_of(&out, 0, end)
    }
}

} // verus!
