//! Writing a task and reading the line again.

use vstd::prelude::*;
use crate::chars::{is_whitespace, is_word_char};
use crate::lemmas::{
    lemma_attribute_tail_chars, lemma_attributes_concat, lemma_attributes_of_attribute_tail,
    lemma_no_attribute, lemma_no_colon, lemma_no_marker, lemma_no_tag, lemma_tag_tail_chars,
    lemma_tags_concat, lemma_tags_of_tag_tail, lemma_trim_spaces,
};
use crate::line::{
    after_completion_mark, attribute_tail, body_of, completion_mark, has_completion_mark,
    has_priority_mark, joined, parse, priority_mark, priority_of, serialize, tag_tail,
    written_text, TaskView,
};
use crate::scan::{
    attributes, spaces, tags, without_attributes, without_tags, CONTEXT_MARKER, PROJECT_MARKER,
};
use crate::trim::{trim, trim_end};
use crate::validity::lemma_parse_is_valid;

verus! {

/// The project tags of the written text are the task's projects, and each
/// leaves a space.
proof fn lemma_projects_of_written_text(task: TaskView)
    requires
        task.is_valid(),
    ensures
        tags(written_text(task), PROJECT_MARKER) == task.projects,
        without_tags(written_text(task), PROJECT_MARKER) == task.description + spaces(
            task.projects.len(),
        ) + tag_tail(task.contexts, CONTEXT_MARKER) + attribute_tail(task.attributes),
{
    let d = task.description;
    let tc = tag_tail(task.contexts, CONTEXT_MARKER);
    let ta = attribute_tail(task.attributes);
    let y = tc + ta;
    let x = tag_tail(task.projects, PROJECT_MARKER) + y;
    lemma_tag_tail_chars(task.projects, PROJECT_MARKER);
    lemma_tag_tail_chars(task.contexts, CONTEXT_MARKER);
    lemma_attribute_tail_chars(task.attributes);
    assert(written_text(task) =~= d + x);
    lemma_tags_concat(d, x, PROJECT_MARKER);
    lemma_no_tag(d, PROJECT_MARKER);
    lemma_tags_of_tag_tail(task.projects, PROJECT_MARKER, y);
    assert forall|j: int| 0 <= j < y.len() implies y[j] != PROJECT_MARKER by {
        if j < tc.len() {
            assert(y[j] == tc[j]);
        } else {
            assert(y[j] == ta[j - tc.len()]);
        }
    }
    lemma_no_marker(y, PROJECT_MARKER);
    lemma_no_tag(y, PROJECT_MARKER);
    assert(Seq::<Seq<char>>::empty() + (task.projects + Seq::<Seq<char>>::empty())
        =~= task.projects);
    assert(d + (spaces(task.projects.len()) + y) =~= d + spaces(task.projects.len()) + tc + ta);
}

/// The context tags of what the projects leave are the task's contexts,
/// and each leaves a space.
proof fn lemma_contexts_of_written_text(task: TaskView, n: nat)
    requires
        task.is_valid(),
    ensures
        tags(
            task.description + spaces(n) + tag_tail(task.contexts, CONTEXT_MARKER)
                + attribute_tail(task.attributes),
            CONTEXT_MARKER,
        ) == task.contexts,
        without_tags(
            task.description + spaces(n) + tag_tail(task.contexts, CONTEXT_MARKER)
                + attribute_tail(task.attributes),
            CONTEXT_MARKER,
        ) == task.description + spaces(n + task.contexts.len()) + attribute_tail(task.attributes),
{
    let d = task.description;
    let tc = tag_tail(task.contexts, CONTEXT_MARKER);
    let ta = attribute_tail(task.attributes);
    let y = tc + ta;
    let x = spaces(n) + y;
    lemma_tag_tail_chars(task.contexts, CONTEXT_MARKER);
    lemma_attribute_tail_chars(task.attributes);
    assert(d + spaces(n) + tc + ta =~= d + x);
    lemma_tags_concat(d, x, CONTEXT_MARKER);
    lemma_no_tag(d, CONTEXT_MARKER);
    lemma_tags_concat(spaces(n), y, CONTEXT_MARKER);
    lemma_no_marker(spaces(n), CONTEXT_MARKER);
    lemma_no_tag(spaces(n), CONTEXT_MARKER);
    lemma_tags_of_tag_tail(task.contexts, CONTEXT_MARKER, ta);
    lemma_no_marker(ta, CONTEXT_MARKER);
    lemma_no_tag(ta, CONTEXT_MARKER);
    let none = Seq::<Seq<char>>::empty();
    assert(none + (none + (task.contexts + none)) =~= task.contexts);
    assert(d + (spaces(n) + (spaces(task.contexts.len()) + ta)) =~= d + spaces(
        n + task.contexts.len(),
    ) + ta);
}

/// The attributes of what the tags leave are the task's attributes, and
/// each leaves a space.
proof fn lemma_attributes_of_written_text(task: TaskView, n: nat)
    requires
        task.is_valid(),
    ensures
        attributes(task.description + spaces(n) + attribute_tail(task.attributes))
            == task.attributes,
        without_attributes(task.description + spaces(n) + attribute_tail(task.attributes))
            == task.description + spaces(n + task.attributes.len()),
{
    let d = task.description;
    let ta = attribute_tail(task.attributes);
    let x = spaces(n) + ta;
    let nothing = Seq::<char>::empty();
    lemma_attribute_tail_chars(task.attributes);
    assert(d + spaces(n) + ta =~= d + x);
    lemma_attributes_concat(d, x);
    lemma_no_attribute(d);
    lemma_attributes_concat(spaces(n), ta);
    lemma_no_colon(spaces(n));
    lemma_no_attribute(spaces(n));
    lemma_attributes_of_attribute_tail(task.attributes, nothing);
    assert(ta + nothing =~= ta);
    let none = Seq::<(Seq<char>, Seq<char>)>::empty();
    assert(none + (none + (task.attributes + none)) =~= task.attributes);
    assert(d + (spaces(n) + (spaces(task.attributes.len()) + nothing)) =~= d + spaces(
        n + task.attributes.len(),
    ));
}

/// The text that is written for a valid task is read back as the task's
/// description, projects, contexts and attributes.
pub proof fn lemma_scan_written_text(task: TaskView)
    requires
        task.is_valid(),
    ensures
        ({
            let text = written_text(task);
            let no_projects = without_tags(text, PROJECT_MARKER);
            let no_contexts = without_tags(no_projects, CONTEXT_MARKER);
            &&& tags(text, PROJECT_MARKER) == task.projects
            &&& tags(no_projects, CONTEXT_MARKER) == task.contexts
            &&& attributes(no_contexts) == task.attributes
            &&& trim(without_attributes(no_contexts)) == task.description
        }),
{
    let np = task.projects.len();
    let nc = task.contexts.len();
    lemma_projects_of_written_text(task);
    lemma_contexts_of_written_text(task, np);
    lemma_attributes_of_written_text(task, np + nc);
    lemma_trim_spaces(task.description, np + nc + task.attributes.len());
}

/// The text that is written for a valid task is empty or ends in a
/// character that is not white space.
pub proof fn lemma_written_text_end(task: TaskView)
    requires
        task.is_valid(),
    ensures
        written_text(task).len() > 0 ==> !is_whitespace(written_text(task).last()),
{
    let text = written_text(task);
    lemma_tag_tail_chars(task.projects, PROJECT_MARKER);
    lemma_tag_tail_chars(task.contexts, CONTEXT_MARKER);
    lemma_attribute_tail_chars(task.attributes);
    if text.len() > 0 {
        let c = text.last();
        assert(is_word_char(c) || (task.description.len() > 0 && c
            == task.description.last()));
    }
}

/// A valid task is read back from its line exactly when it is unambiguous:
/// then `parse(serialize(task)) == task`, and else it is not.
pub proof fn lemma_parse_serialize(task: TaskView)
    requires
        task.is_valid(),
    ensures
        parse(serialize(task)) == task <==> task.is_unambiguous(),
{
    let text = written_text(task);
    let marks = completion_mark(task.is_complete) + priority_mark(task.priority);
    let line = serialize(task);
    lemma_written_text_end(task);
    assert(joined(task) =~= marks + text);
    if text.len() > 0 {
        assert(joined(task).last() == text.last());
        assert(line == joined(task));
        let behind = priority_mark(task.priority) + text;
        assert(line =~= completion_mark(task.is_complete) + behind);
        if task.is_complete {
            assert(has_completion_mark(line));
            assert(line.skip(2) =~= behind);
        }
        if task.priority is Some {
            assert(has_priority_mark(behind));
            assert(behind.skip(4) =~= text);
            assert(!has_completion_mark(behind));
        } else {
            assert(behind =~= text);
        }
        if task.is_unambiguous() {
            assert(after_completion_mark(line) == behind);
            assert(body_of(line) == text);
            lemma_scan_written_text(task);
            assert(parse(line) == task);
        } else if !task.is_complete && has_completion_mark(text) {
            assert(parse(line).is_complete);
        } else {
            assert(after_completion_mark(line) == behind);
            assert(parse(line).priority is Some);
        }
    } else {
        assert(joined(task) =~= marks);
        if task.is_complete && task.priority is Some {
            let l = task.priority->0;
            assert(marks =~= seq!['x', ' ', '(', l, ')', ' ']);
            assert(marks.drop_last() =~= seq!['x', ' ', '(', l, ')']);
            assert(trim_end(marks.drop_last()) == marks.drop_last());
            assert(line == marks.drop_last());
            assert(line.skip(2) =~= seq!['(', l, ')']);
            assert(parse(line).priority is None);
        } else if task.is_complete {
            assert(marks =~= seq!['x', ' ']);
            assert(marks.drop_last() =~= seq!['x']);
            assert(trim_end(marks.drop_last()) == marks.drop_last());
            assert(line == marks.drop_last());
            assert(!parse(line).is_complete);
        } else if task.priority is Some {
            let l = task.priority->0;
            assert(marks =~= seq!['(', l, ')', ' ']);
            assert(marks.drop_last() =~= seq!['(', l, ')']);
            assert(trim_end(marks.drop_last()) == marks.drop_last());
            assert(line == marks.drop_last());
            assert(parse(line).priority is None);
        } else {
            assert(line =~= Seq::<char>::empty());
            assert(body_of(line) == text);
            lemma_scan_written_text(task);
            assert(parse(line) == task);
        }
    }
}

/// Writing what a line was read as, and reading that again, gives the same
/// task, where the task is unambiguous.
pub proof fn lemma_parse_serialize_parse(line: Seq<char>)
    requires
        parse(line).is_unambiguous(),
    ensures
        parse(serialize(parse(line))) == parse(line),
{
    lemma_parse_is_valid(line);
    lemma_parse_serialize(parse(line));
}

} // verus!
