use treehouse::json::JsonValue;
use treehouse::viewer::{filtered_commands, summarize_for_results, PaletteCommand};

#[test]
fn blank_filters_list_every_command() {
    let all = filtered_commands("   ");
    assert_eq!(all.len(), 5);
    assert_eq!(all[0], PaletteCommand::OpenFile);
    assert_eq!(all[4].label(), "Clear Selection");
}

#[test]
fn filters_commands_by_label() {
    assert_eq!(
        filtered_commands(" CLEAR "),
        vec![
            PaletteCommand::ClearBookmarks,
            PaletteCommand::ClearRecentFiles,
            PaletteCommand::ClearSelection
        ]
    );
    assert_eq!(
        filtered_commands("bookmark"),
        vec![PaletteCommand::AddBookmark, PaletteCommand::ClearBookmarks]
    );
    assert!(filtered_commands("zzz").is_empty());
}

#[test]
fn summarizes_values_in_one_line() {
    let obj = JsonValue::Object(vec![
        ("a".to_string(), JsonValue::Null),
        ("b".to_string(), JsonValue::Bool(false)),
    ]);
    assert_eq!(summarize_for_results(&obj), "object (2)");
    assert_eq!(summarize_for_results(&JsonValue::Array(vec![])), "array (0)");
    assert_eq!(summarize_for_results(&JsonValue::Str("hi".to_string())), "\"hi\"");
    assert_eq!(
        summarize_for_results(&JsonValue::Number { text: "2.5".to_string(), float: true }),
        "2.5"
    );
    assert_eq!(summarize_for_results(&JsonValue::Bool(true)), "true");
    assert_eq!(summarize_for_results(&JsonValue::Null), "null");
}
