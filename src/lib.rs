//! Collects `TODO` markers found in comments of source files and renders
//! them as a plain or checklist report, optionally grouped by file.
use vstd::prelude::*;

pub mod extract;
pub mod item;
pub mod report;
pub mod scan;
pub mod text;

pub use extract::{extract_task, strip_trailing_comment_symbols};
pub use item::{DisplayDetail, TodoItem, TodoItemBuilder, TodoItemBuilderError};
pub use report::{
    group_by_file, render_groups, render_report, render_todos, GroupBy, OutputFormat, TodoGroup,
};
pub use scan::{collect_todos, todo_items_from_file, SourceFile};

verus! {

} // verus!
