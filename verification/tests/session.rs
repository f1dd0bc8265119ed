use flowtracer::session::{empty_run_note, file_poll, watch_file_note, WatchAction};

#[test]
fn watch_redraws_only_when_the_line_count_changes() {
    assert_eq!(file_poll(0, 0), (0, WatchAction::Wait));
    assert_eq!(file_poll(0, 3), (3, WatchAction::Redraw));
    assert_eq!(file_poll(3, 3), (3, WatchAction::Wait));
    assert_eq!(file_poll(5, 2), (2, WatchAction::Redraw));
}

#[test]
fn notes_when_nothing_is_shown() {
    assert_eq!(empty_run_note(true, None, &[]), "No log entries found.");
    assert_eq!(
        empty_run_note(true, Some("x"), &["a".to_string()]),
        "No log entries found."
    );
    assert_eq!(
        empty_run_note(false, None, &[]),
        "No traces found matching the given filters."
    );
    let ids = vec!["a-1".to_string(), "b-2".to_string(), "c-3".to_string()];
    assert_eq!(
        empty_run_note(false, Some("zz"), &ids),
        "Request ID \"zz\" not found. Available request IDs: a-1, b-2, c-3"
    );
    assert_eq!(
        empty_run_note(false, Some("b-2"), &ids),
        "No traces found matching the given filters."
    );
    assert_eq!(
        empty_run_note(false, Some("zz"), &[]),
        "Request ID \"zz\" not found. Available request IDs: (none)"
    );
    assert_eq!(
        watch_file_note(true, "app.log"),
        "Watching app.log (Ctrl+C to exit)"
    );
    assert_eq!(
        watch_file_note(false, "app.log"),
        "Waiting for structured log data... (Ctrl+C to exit)"
    );
}
