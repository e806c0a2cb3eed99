use todo_list::{
    collect_todos, group_by_file, render_groups, render_report, render_todos,
    todo_items_from_file, DisplayDetail, GroupBy, OutputFormat, SourceFile, TodoItem,
};

fn example_sources() -> Vec<SourceFile> {
    vec![
        SourceFile { path: "a.py".to_string(), text: Some("# TODO: fix bug\n".to_string()) },
        SourceFile { path: "b.py".to_string(), text: Some("// TODO: refactor\n".to_string()) },
    ]
}

fn item(path: &str, line: usize, task: &str) -> TodoItem {
    TodoItem {
        path: path.to_string(),
        task: task.to_string(),
        line_number: line,
        display_detail: DisplayDetail::FileAndLineNumber,
    }
}

fn summary(items: &[TodoItem]) -> Vec<(String, usize, String)> {
    items.iter().map(|t| (t.path.clone(), t.line_number, t.task.clone())).collect()
}

#[test]
fn end_to_end_text_report() {
    let todos = collect_todos(&example_sources(), DisplayDetail::FileAndLineNumber);
    assert_eq!(
        render_report(&todos, OutputFormat::Text, None),
        "a.py:0: fix bug\nb.py:0: refactor\n"
    );
}

#[test]
fn end_to_end_markdown_report() {
    let todos = collect_todos(&example_sources(), DisplayDetail::FileAndLineNumber);
    assert_eq!(
        render_report(&todos, OutputFormat::Markdown, None),
        "- [ ] a.py:0: fix bug\n- [ ] b.py:0: refactor\n"
    );
}

#[test]
fn end_to_end_grouped_just_task_report() {
    let todos = collect_todos(&example_sources(), DisplayDetail::JustTask);
    assert_eq!(
        render_report(&todos, OutputFormat::Text, Some(GroupBy::File)),
        "a.py\nfix bug\n\nb.py\nrefactor\n"
    );
}

#[test]
fn unreadable_source_is_omitted() {
    let mut sources = example_sources();
    sources.insert(1, SourceFile { path: "missing.py".to_string(), text: None });
    let with_missing = collect_todos(&sources, DisplayDetail::FileAndLineNumber);
    let without = collect_todos(&example_sources(), DisplayDetail::FileAndLineNumber);
    assert_eq!(summary(&with_missing), summary(&without));
    assert_eq!(
        render_report(&with_missing, OutputFormat::Text, None),
        "a.py:0: fix bug\nb.py:0: refactor\n"
    );
}

#[test]
fn parts_merged_in_order_match_one_pass() {
    let sources = example_sources();
    let whole = collect_todos(&sources, DisplayDetail::FileAndLineNumber);
    let mut sources = sources;
    let second = vec![sources.pop().unwrap()];
    let mut merged = collect_todos(&sources, DisplayDetail::FileAndLineNumber);
    merged.extend(collect_todos(&second, DisplayDetail::FileAndLineNumber));
    assert_eq!(summary(&merged), summary(&whole));
    assert_eq!(
        summary(&whole),
        vec![
            ("a.py".to_string(), 0, "fix bug".to_string()),
            ("b.py".to_string(), 0, "refactor".to_string())
        ]
    );
}

#[test]
fn scanning_numbers_lines_from_zero() {
    let text = "fn main() {}\r\n// TODO: first\r\n\n    # TODO: second\n// nothing\n-- TODO: last";
    let items = todo_items_from_file(text, "x.rs", DisplayDetail::JustTask);
    assert_eq!(
        summary(&items),
        vec![
            ("x.rs".to_string(), 1, "first".to_string()),
            ("x.rs".to_string(), 3, "second".to_string()),
            ("x.rs".to_string(), 5, "last".to_string())
        ]
    );
    assert!(items.iter().all(|t| t.display_detail == DisplayDetail::JustTask));
    assert!(todo_items_from_file("", "x.rs", DisplayDetail::JustTask).is_empty());
    assert!(todo_items_from_file("\n\n", "x.rs", DisplayDetail::JustTask).is_empty());
}

#[test]
fn empty_item_list_renders_nothing() {
    assert_eq!(render_todos(&Vec::new(), OutputFormat::Text), "");
    assert_eq!(render_todos(&Vec::new(), OutputFormat::Markdown), "");
    assert_eq!(render_report(&Vec::new(), OutputFormat::Text, None), "");
    assert_eq!(render_report(&Vec::new(), OutputFormat::Text, Some(GroupBy::File)), "");
}

#[test]
fn groups_are_runs_of_equal_paths() {
    let items = vec![item("a", 0, "x"), item("a", 2, "y"), item("b", 1, "z"), item("a", 4, "w")];
    let groups = group_by_file(&items);
    let shape: Vec<(String, usize)> =
        groups.iter().map(|g| (g.path.clone(), g.items.len())).collect();
    assert_eq!(
        shape,
        vec![("a".to_string(), 2), ("b".to_string(), 1), ("a".to_string(), 1)]
    );
    let rejoined: Vec<TodoItem> = groups.into_iter().flat_map(|g| g.items).collect();
    assert_eq!(summary(&rejoined), summary(&items));
}

#[test]
fn grouped_markdown_report() {
    let items = vec![item("a", 0, "x"), item("a", 2, "y"), item("b", 1, "z")];
    let groups = group_by_file(&items);
    assert_eq!(
        render_groups(&groups, OutputFormat::Markdown),
        "a\n- [ ] a:0: x\n- [ ] a:2: y\n\nb\n- [ ] b:1: z\n"
    );
}

#[test]
fn markdown_lines_are_checkbox_and_text_lines() {
    let items = vec![item("a", 0, "x"), item("b", 12, "y z")];
    let text = render_todos(&items, OutputFormat::Text);
    let markdown = render_todos(&items, OutputFormat::Markdown);
    let expected: Vec<String> = text.lines().map(|l| format!("- [ ] {}", l)).collect();
    let got: Vec<String> = markdown.lines().map(|l| l.to_string()).collect();
    assert_eq!(got, expected);
}
