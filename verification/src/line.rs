//! The format of a line, as a mathematical model.
//!
//! A line reads `["x "] ["(" letter ") "] text`, where the tags and
//! attributes may stand anywhere in the text. [`parse`] says which task a
//! line holds, [`serialize`] which line is written for a task.

use vstd::prelude::*;
use crate::chars::is_priority_letter;
use crate::scan::{
    attributes, has_no_attribute, has_no_tag, is_word, tags, without_attributes, without_tags,
    CONTEXT_MARKER, PROJECT_MARKER,
};
use crate::trim::{is_trimmed, trim, trim_end};

verus! {

/// A task as a mathematical value.
pub struct TaskView {
    pub is_complete: bool,
    pub priority: Option<char>,
    pub description: Seq<char>,
    pub projects: Seq<Seq<char>>,
    pub contexts: Seq<Seq<char>>,
    pub attributes: Seq<(Seq<char>, Seq<char>)>,
}

/// The line begins with the completion mark: an `x` and one space.
pub open spec fn has_completion_mark(s: Seq<char>) -> bool {
    s.len() >= 2 && s[0] == 'x' && s[1] == ' '
}

/// The line behind its completion mark, if it has one.
pub open spec fn after_completion_mark(s: Seq<char>) -> Seq<char> {
    if has_completion_mark(s) {
        s.skip(2)
    } else {
        s
    }
}

/// The text begins with a priority mark: a letter from `A` to `Z` in round
/// brackets, and one space.
pub open spec fn has_priority_mark(s: Seq<char>) -> bool {
    s.len() >= 4 && s[0] == '(' && is_priority_letter(s[1]) && s[2] == ')' && s[3] == ' '
}

/// The letter of the priority mark that the text begins with, if any.
pub open spec fn priority_of(s: Seq<char>) -> Option<char> {
    if has_priority_mark(s) {
        Some(s[1])
    } else {
        None
    }
}

/// The text behind its priority mark, if it has one.
pub open spec fn after_priority_mark(s: Seq<char>) -> Seq<char> {
    if has_priority_mark(s) {
        s.skip(4)
    } else {
        s
    }
}

/// The text of a line: what stands behind the completion mark and the
/// priority mark.
pub open spec fn body_of(line: Seq<char>) -> Seq<char> {
    after_priority_mark(after_completion_mark(line))
}

/// The task that a line holds.
///
/// The marks are read at the very start of the line only, the completion
/// mark first. Project tags are taken from the text, context tags from what
/// the project tags leave, attributes from what the context tags leave; the
/// description is what the attributes leave, trimmed at both ends.
pub open spec fn parse(line: Seq<char>) -> TaskView {
    let body = body_of(line);
    let no_projects = without_tags(body, PROJECT_MARKER);
    let no_contexts = without_tags(no_projects, CONTEXT_MARKER);
    TaskView {
        is_complete: has_completion_mark(line),
        priority: priority_of(after_completion_mark(line)),
        description: trim(without_attributes(no_contexts)),
        projects: tags(body, PROJECT_MARKER),
        contexts: tags(no_projects, CONTEXT_MARKER),
        attributes: attributes(no_contexts),
    }
}

/// What is written for the completion state: `"x "` or nothing.
pub open spec fn completion_mark(is_complete: bool) -> Seq<char> {
    if is_complete {
        seq!['x', ' ']
    } else {
        Seq::empty()
    }
}

/// What is written for the priority: the letter in round brackets and a
/// space, or nothing.
pub open spec fn priority_mark(priority: Option<char>) -> Seq<char> {
    match priority {
        Some(letter) => seq!['(', letter, ')', ' '],
        None => Seq::empty(),
    }
}

/// The tags written one after the other, each behind a space and the
/// marker.
pub open spec fn tag_tail(names: Seq<Seq<char>>, marker: char) -> Seq<char>
    decreases names.len(),
{
    if names.len() == 0 {
        Seq::empty()
    } else {
        seq![' ', marker] + names[0] + tag_tail(names.skip(1), marker)
    }
}

/// The attributes written one after the other as `key:value`, each behind
/// a space.
pub open spec fn attribute_tail(pairs: Seq<(Seq<char>, Seq<char>)>) -> Seq<char>
    decreases pairs.len(),
{
    if pairs.len() == 0 {
        Seq::empty()
    } else {
        seq![' '] + pairs[0].0 + seq![':'] + pairs[0].1 + attribute_tail(pairs.skip(1))
    }
}

/// The text that is written behind the marks: the description (also where
/// it is empty), the projects, the contexts, the attributes.
pub open spec fn written_text(task: TaskView) -> Seq<char> {
    task.description + tag_tail(task.projects, PROJECT_MARKER) + tag_tail(
        task.contexts,
        CONTEXT_MARKER,
    ) + attribute_tail(task.attributes)
}

/// The parts of a task joined by single spaces, in canonical order: the
/// completion mark, the priority mark, the text.
pub open spec fn joined(task: TaskView) -> Seq<char> {
    completion_mark(task.is_complete) + priority_mark(task.priority) + written_text(task)
}

/// The line that is written for a task: its parts joined, without the white
/// space at the end.
pub open spec fn serialize(task: TaskView) -> Seq<char> {
    trim_end(joined(task))
}

impl TaskView {
    /// The fields hold what a line can give them: the priority is a letter
    /// from `A` to `Z`; the names of projects and contexts, and the keys and
    /// values of attributes, are words; the description is trimmed, and no
    /// tag and no attribute starts in it.
    pub open spec fn is_valid(self) -> bool {
        &&& self.priority matches Some(letter) ==> is_priority_letter(letter)
        &&& forall|i: int| 0 <= i < self.projects.len() ==> is_word(#[trigger] self.projects[i])
        &&& forall|i: int| 0 <= i < self.contexts.len() ==> is_word(#[trigger] self.contexts[i])
        &&& forall|i: int|
            0 <= i < self.attributes.len() ==> is_word((#[trigger] self.attributes[i]).0)
                && is_word(self.attributes[i].1)
        &&& is_trimmed(self.description)
        &&& has_no_tag(self.description, PROJECT_MARKER)
        &&& has_no_tag(self.description, CONTEXT_MARKER)
        &&& has_no_attribute(self.description)
    }

    /// The written line shows the marks of the task and no others: behind a
    /// mark the text is not empty (the space that ends the mark would be
    /// trimmed away with it), and the text does not itself begin like a mark
    /// that would be read in the place of a missing one.
    pub open spec fn is_unambiguous(self) -> bool {
        let text = written_text(self);
        &&& (self.is_complete || self.priority is Some) ==> text.len() > 0
        &&& (!self.is_complete && self.priority is None) ==> !has_completion_mark(text)
        &&& self.priority is None ==> !has_priority_mark(text)
    }
}

} // verus!
