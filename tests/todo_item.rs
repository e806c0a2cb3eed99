use todo_list::{
    extract_task, strip_trailing_comment_symbols, DisplayDetail, TodoItem, TodoItemBuilder,
    TodoItemBuilderError,
};

#[test]
fn test_extract_task() {
    [
        "// TODO: This is a test",
        "/// TODO: This is a test",
        "# TODO: This is a test",
        "Some code # TODO: This is a test",
        "-- TODO: This is a test",
        "-- TODO: This is a test  \"",
        "<!-- TODO: This is a test -->",
    ]
    .iter()
    .for_each(|example| {
        assert_eq!(
            extract_task(example),
            Some("This is a test".to_string()),
            "Failed on: {}",
            example
        )
    })
}

#[test]
fn test_display_todo() {
    let todo = TodoItemBuilder::default()
        .path(String::from("some/path"))
        .task("Do something".to_string())
        .line_number(42)
        .display_detail(DisplayDetail::FileAndLineNumber)
        .build()
        .unwrap();

    assert_eq!(todo.to_string(), "some/path:42: Do something");
    assert_eq!(todo.to_markdown(), "- [ ] some/path:42: Do something");

    let todo = TodoItemBuilder::default()
        .path(String::from("some/path"))
        .task("Do something".to_string())
        .line_number(42)
        .display_detail(DisplayDetail::JustTask)
        .build()
        .unwrap();

    assert_eq!(todo.to_string(), "Do something");
    assert_eq!(todo.to_markdown(), "- [ ] Do something");
}

#[test]
fn line_without_comment_opener_has_no_task() {
    assert_eq!(extract_task("TODO: not in a comment"), None);
    assert_eq!(extract_task("let x = 1; TODO: fix"), None);
    assert_eq!(extract_task(""), None);
}

#[test]
fn keyword_inside_longer_word_has_no_task() {
    assert_eq!(extract_task("// TODOLIST: groceries"), None);
    assert_eq!(extract_task("# MYTODO: groceries"), None);
    assert_eq!(extract_task("// TODO_later: groceries"), None);
    assert_eq!(extract_task("// TODOé groceries"), None);
}

#[test]
fn blank_text_after_marker_has_no_task() {
    assert_eq!(extract_task("// TODO:"), None);
    assert_eq!(extract_task("// TODO:   \t "), None);
    assert_eq!(extract_task("# TODO"), None);
    assert_eq!(extract_task("# TODO: \u{3000}"), None);
    assert_eq!(extract_task("<!-- TODO: -->"), None);
}

#[test]
fn marker_needs_text_that_survives_cleaning() {
    assert_eq!(extract_task("// TODO: !!!"), None);
    assert_eq!(extract_task("// TODO: fix this!!"), Some("fix this".to_string()));
    assert_eq!(extract_task("// TODO fix"), Some("fix".to_string()));
    assert_eq!(extract_task("//TODO:fix"), Some("fix".to_string()));
    assert_eq!(extract_task("// TODO: \u{3000}fix"), Some("fix".to_string()));
    assert_eq!(extract_task("// TODO-x"), Some("-x".to_string()));
}

#[test]
fn block_comment_must_close_before_marker() {
    assert_eq!(extract_task("/* TODO: fix */"), None);
    assert_eq!(extract_task("/* note */ TODO: fix"), Some("fix".to_string()));
    assert_eq!(extract_task("<!-- x --> TODO: y"), Some("y".to_string()));
    assert_eq!(extract_task("<!-- TODO: y"), Some("y".to_string()));
}

#[test]
fn leftmost_opener_decides() {
    assert_eq!(extract_task("# a // TODO: b"), Some("b".to_string()));
    assert_eq!(
        extract_task("/* TODO a */ x // TODO: b"),
        Some("b".to_string())
    );
    assert_eq!(extract_task("# TODO: first TODO: second"), Some("first TODO: second".to_string()));
}

#[test]
fn strips_trailing_symbols_only() {
    assert_eq!(strip_trailing_comment_symbols("fix it -->"), "fix it");
    assert_eq!(strip_trailing_comment_symbols("  a1 */ \""), "  a1");
    assert_eq!(strip_trailing_comment_symbols("!!!"), "");
    assert_eq!(strip_trailing_comment_symbols(""), "");
}

#[test]
fn builder_reports_first_missing_field() {
    let missing_path = TodoItemBuilder::default()
        .task("t".to_string())
        .line_number(1)
        .display_detail(DisplayDetail::JustTask)
        .build();
    assert_eq!(missing_path.unwrap_err(), TodoItemBuilderError::MissingPath);
    let missing_task = TodoItemBuilder::default().path("p".to_string()).build();
    assert_eq!(missing_task.unwrap_err(), TodoItemBuilderError::MissingTask);
    let missing_line = TodoItemBuilder::default()
        .path("p".to_string())
        .task("t".to_string())
        .build();
    assert_eq!(missing_line.unwrap_err(), TodoItemBuilderError::MissingLineNumber);
    let missing_detail = TodoItemBuilder::default()
        .path("p".to_string())
        .task("t".to_string())
        .line_number(3)
        .build();
    assert_eq!(missing_detail.unwrap_err(), TodoItemBuilderError::MissingDisplayDetail);
}

#[test]
fn maybe_from_line_sets_only_the_task() {
    assert!(TodoItem::maybe_from_line("no marker here").is_none());
    let builder = TodoItem::maybe_from_line("# TODO: write docs").unwrap();
    let item = builder
        .path("lib.py".to_string())
        .line_number(7)
        .display_detail(DisplayDetail::FileAndLineNumber)
        .build()
        .unwrap();
    assert_eq!(item.task, "write docs");
    assert_eq!(item.to_string(), "lib.py:7: write docs");
    let unfinished = TodoItem::maybe_from_line("# TODO: write docs").unwrap().build();
    assert_eq!(unfinished.unwrap_err(), TodoItemBuilderError::MissingPath);
}

#[test]
fn line_numbers_render_in_decimal() {
    for (n, expected) in [(0usize, "p:0: t"), (9, "p:9: t"), (10, "p:10: t"), (1203, "p:1203: t")] {
        let item = TodoItem {
            path: "p".to_string(),
            task: "t".to_string(),
            line_number: n,
            display_detail: DisplayDetail::FileAndLineNumber,
        };
        assert_eq!(item.to_string(), expected);
    }
    let item = TodoItem {
        path: "p".to_string(),
        task: "t".to_string(),
        line_number: usize::MAX,
        display_detail: DisplayDetail::FileAndLineNumber,
    };
    assert_eq!(item.to_string(), format!("p:{}: t", usize::MAX));
}

#[test]
fn markdown_is_checkbox_before_text() {
    for detail in [DisplayDetail::FileAndLineNumber, DisplayDetail::JustTask] {
        let item = TodoItem {
            path: "src/a.rs".to_string(),
            task: "tidy up".to_string(),
            line_number: 5,
            display_detail: detail,
        };
        assert_eq!(item.to_markdown(), format!("- [ ] {}", item.to_string()));
    }
}

#[test]
fn maybe_from_line_is_none_without_task() {
    for line in [
        "x = 1; TODO: fix",
        "// TODOLIST: fix",
        "// TODO:   ",
        "// todo: fix",
        "// Todo: fix",
        "TODO: fix // later",
        "<!-- TODO -->",
    ] {
        assert!(TodoItem::maybe_from_line(line).is_none(), "{}", line);
    }
    assert!(TodoItem::maybe_from_line("/* a */ TODO: fix").is_some());
}
