//! One discovered `TODO`, how it is assembled, and how it is rendered.
use vstd::prelude::*;

use crate::extract::{extract_task, task_of};
use crate::text::push_char;

verus! {

/// Whether an item shows where it was found, or only its task.
#[derive(Clone, Copy, Debug, PartialEq, Eq, Structural)]
pub enum DisplayDetail {
    FileAndLineNumber,
    JustTask,
}

/// A `TODO` found in a file.
#[derive(Debug)]
pub struct TodoItem {
    pub path: String,
    pub task: String,
    pub line_number: usize,
    pub display_detail: DisplayDetail,
}

/// The mathematical value of a [`TodoItem`].
pub struct TodoView {
    pub path: Seq<char>,
    pub task: Seq<char>,
    pub line_number: nat,
    pub display_detail: DisplayDetail,
}

impl View for TodoItem {
    type V = TodoView;

    open spec fn view(&self) -> TodoView {
        TodoView {
            path: self.path@,
            task: self.task@,
            line_number: self.line_number as nat,
            display_detail: self.display_detail,
        }
    }
}

/// The decimal digits, in order of value.
pub open spec fn digits() -> Seq<char> {
    seq!['0', '1', '2', '3', '4', '5', '6', '7', '8', '9']
}

/// The character of a decimal digit `d < 10`.
pub open spec fn digit_char(d: nat) -> char {
    digits()[d as int]
}

/// `n` written in decimal, without leading zeros.
pub open spec fn decimal(n: nat) -> Seq<char>
    decreases n,
{
    if n < 10 {
        seq![digit_char(n)]
    } else {
        decimal(n / 10).push(digit_char(n % 10))
    }
}

/// The plain rendering of an item.
pub open spec fn text_line(v: TodoView) -> Seq<char> {
    match v.display_detail {
        DisplayDetail::FileAndLineNumber => v.path + seq![':'] + decimal(v.line_number) + seq![
            ':',
            ' ',
        ] + v.task,
        DisplayDetail::JustTask => v.task,
    }
}

/// The checkbox that starts a checklist entry.
pub open spec fn checkbox() -> Seq<char> {
    seq!['-', ' ', '[', ' ', ']', ' ']
}

/// The checklist rendering of an item.
pub open spec fn markdown_line(v: TodoView) -> Seq<char> {
    checkbox() + text_line(v)
}

/// A checklist entry is the checkbox followed by the plain rendering of the
/// same item.
pub proof fn law_markdown_is_checkbox_and_text(item: TodoView)
    ensures
        markdown_line(item) == checkbox() + text_line(item),
        markdown_line(item).subrange(0, 6) == checkbox(),
        markdown_line(item).subrange(6, markdown_line(item).len() as int) == text_line(item),
{
    assert(markdown_line(item).subrange(0, 6) =~= checkbox());
    assert(markdown_line(item).subrange(6, markdown_line(item).len() as int) =~= text_line(item));
}

/// Appends `n` in decimal to `s`.
fn push_decimal(s: &mut String, n: usize)
    ensures
        final(s)@ == old(s)@ + decimal(n as nat),
    decreases n,
{
    if n >= 10 {
        push_decimal(s, n / 10);
    }
    let table: [char; 10] = ['0', '1', '2', '3', '4', '5', '6', '7', '8', '9'];
    assert(table@ =~= digits());
    push_char(s, table[n % 10]);
    proof {
        if n >= 10 {
            assert(old(s)@ + decimal(n as nat) =~= old(s)@ + decimal((n / 10) as nat) + seq![
                digit_char((n % 10) as nat),
            ]);
        } else {
            assert(old(s)@ + decimal(n as nat) =~= old(s)@.push(digit_char(n as nat)));
        }
    }
}

impl TodoItem {
    /// A builder holding the task of `line`, when the line has one.
    pub fn maybe_from_line(line: &str) -> (r: Option<TodoItemBuilder>)
        ensures
            r matches Some(b) ==> b.task_spec() == task_of(line@) && b.path_spec() is None
                && b.line_number_spec() is None && b.display_detail_spec() is None,
            r is None <==> task_of(line@) is None,
    {
        match extract_task(line) {
            Some(task) => Some(TodoItemBuilder::default().task(task)),
            None => None,
        }
    }

    /// The plain rendering: `path:line: task`, or the task alone.
    pub fn to_string(&self) -> (r: String)
        ensures
            r@ == text_line(self@),
    {
        match self.display_detail {
            DisplayDetail::FileAndLineNumber => {
                let mut s = self.path.clone();
                push_char(&mut s, ':');
                push_decimal(&mut s, self.line_number);
                push_char(&mut s, ':');
                push_char(&mut s, ' ');
                s.append(self.task.as_str());
                assert(s@ =~= text_line(self@));
                s
            },
            DisplayDetail::JustTask => self.task.clone(),
        }
    }

    /// The checklist rendering: `- [ ] ` and the plain rendering.
    pub fn to_markdown(&self) -> (r: String)
        ensures
            r@ == markdown_line(self@),
    {
        let mut s = String::new();
        push_char(&mut s, '-');
        push_char(&mut s, ' ');
        push_char(&mut s, '[');
        push_char(&mut s, ' ');
        push_char(&mut s, ']');
        push_char(&mut s, ' ');
        let text = self.to_string();
        s.append(text.as_str());
        assert(s@ =~= markdown_line(self@));
        s
    }
}

/// The field that [`TodoItemBuilder::build`] found unset.
#[derive(Clone, Copy, Debug, PartialEq, Eq, Structural)]
pub enum TodoItemBuilderError {
    MissingPath,
    MissingTask,
    MissingLineNumber,
    MissingDisplayDetail,
}

/// Collects the fields of a [`TodoItem`] one at a time.
#[derive(Debug)]
pub struct TodoItemBuilder {
    path: Option<String>,
    task: Option<String>,
    line_number: Option<usize>,
    display_detail: Option<DisplayDetail>,
}

impl TodoItemBuilder {
    pub closed spec fn path_spec(&self) -> Option<Seq<char>> {
        match self.path {
            Some(p) => Some(p@),
            None => None,
        }
    }

    pub closed spec fn task_spec(&self) -> Option<Seq<char>> {
        match self.task {
            Some(t) => Some(t@),
            None => None,
        }
    }

    pub closed spec fn line_number_spec(&self) -> Option<nat> {
        match self.line_number {
            Some(n) => Some(n as nat),
            None => None,
        }
    }

    pub closed spec fn display_detail_spec(&self) -> Option<DisplayDetail> {
        self.display_detail
    }

    pub fn path(self, path: String) -> (r: Self)
        ensures
            r.path_spec() == Some(path@),
            r.task_spec() == self.task_spec(),
            r.line_number_spec() == self.line_number_spec(),
            r.display_detail_spec() == self.display_detail_spec(),
    {
        TodoItemBuilder { path: Some(path), ..self }
    }

    pub fn task(self, task: String) -> (r: Self)
        ensures
            r.task_spec() == Some(task@),
            r.path_spec() == self.path_spec(),
            r.line_number_spec() == self.line_number_spec(),
            r.display_detail_spec() == self.display_detail_spec(),
    {
        TodoItemBuilder { task: Some(task), ..self }
    }

    pub fn line_number(self, line_number: usize) -> (r: Self)
        ensures
            r.line_number_spec() == Some(line_number as nat),
            r.path_spec() == self.path_spec(),
            r.task_spec() == self.task_spec(),
            r.display_detail_spec() == self.display_detail_spec(),
    {
        TodoItemBuilder { line_number: Some(line_number), ..self }
    }

    pub fn display_detail(self, display_detail: DisplayDetail) -> (r: Self)
        ensures
            r.display_detail_spec() == Some(display_detail),
            r.path_spec() == self.path_spec(),
            r.task_spec() == self.task_spec(),
            r.line_number_spec() == self.line_number_spec(),
    {
        TodoItemBuilder { display_detail: Some(display_detail), ..self }
    }

    /// The item, once every field is set; otherwise the first unset field,
    /// in the order path, task, line number, display detail.
    pub fn build(self) -> (r: Result<TodoItem, TodoItemBuilderError>)
        ensures
            r matches Ok(item) ==> self.path_spec() == Some(item@.path) && self.task_spec() == Some(
                item@.task,
            ) && self.line_number_spec() == Some(item@.line_number)
                && self.display_detail_spec() == Some(item@.display_detail),
            r is Ok <==> (self.path_spec() is Some && self.task_spec() is Some
                && self.line_number_spec() is Some && self.display_detail_spec() is Some),
            r == Err::<TodoItem, _>(TodoItemBuilderError::MissingPath) <==> self.path_spec() is None,
            r == Err::<TodoItem, _>(TodoItemBuilderError::MissingTask) <==> (self.path_spec() is Some
                && self.task_spec() is None),
            r == Err::<TodoItem, _>(TodoItemBuilderError::MissingLineNumber) <==> (
            self.path_spec() is Some && self.task_spec() is Some && self.line_number_spec() is None),
            r == Err::<TodoItem, _>(TodoItemBuilderError::MissingDisplayDetail) <==> (
            self.path_spec() is Some && self.task_spec() is Some && self.line_number_spec() is Some
                && self.display_detail_spec() is None),
    {
        let path = match self.path {
            Some(p) => p,
            None => return Err(TodoItemBuilderError::MissingPath),
        };
        let task = match self.task {
            Some(t) => t,
            None => return Err(TodoItemBuilderError::MissingTask),
        };
        let line_number = match self.line_number {
            Some(n) => n,
            None => return Err(TodoItemBuilderError::MissingLineNumber),
        };
        let display_detail = match self.display_detail {
            Some(d) => d,
            None => return Err(TodoItemBuilderError::MissingDisplayDetail),
        };
        Ok(TodoItem { path, task, line_number, display_detail })
    }
}

impl Default for TodoItemBuilder {
    fn default() -> (r: Self)
        ensures
            r.path_spec() is None,
            r.task_spec() is None,
            r.line_number_spec() is None,
            r.display_detail_spec() is None,
    {
        TodoItemBuilder { path: None, task: None, line_number: None, display_detail: None }
    }
}

} // verus!
