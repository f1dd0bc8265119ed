//! Results that come from the outside crates, seen through the library.
use flowtracer::classifier::patterns::match_error;
use flowtracer::text::is_digit_exec;
use flowtracer::{ColorConfig, LogParser, PlainTextParser, TreeRenderer};

#[test]
fn word_class_takes_unicode_letters() {
    let e = PlainTextParser::new()
        .parse_line("[INFO] [日本語テスト] hello", 1)
        .unwrap();
    assert_eq!(e.request_id.as_deref(), Some("日本語テスト"));
    assert_eq!(e.message, "hello");

    let m = match_error("throw new Ошибка(сбой)").unwrap();
    assert_eq!(m.exception_name.as_deref(), Some("Ошибка"));
    assert_eq!(m.message, "сбой");
}

#[test]
fn word_class_rejects_punctuation() {
    let e = PlainTextParser::new()
        .parse_line("[INFO] [ab!cd-ef] hello", 1)
        .unwrap();
    assert!(e.request_id.is_none());
    assert_eq!(e.message, "[ab!cd-ef] hello");
}

#[test]
fn timestamps_are_milliseconds_since_epoch() {
    let parser = PlainTextParser::new();
    let e = parser.parse_line("1970-01-01 00:00:01.5 [INFO] x", 1).unwrap();
    assert_eq!(e.timestamp, Some(1500));
    let e = parser.parse_line("2026-03-12T10:10:01.123 INFO x", 1).unwrap();
    assert_eq!(e.timestamp, Some(1_773_310_201_123));
    // Matches the timestamp pattern but is no date.
    let e = parser.parse_line("2026-02-30 10:10:01 [INFO] x", 1).unwrap();
    assert_eq!(e.timestamp, None);
    assert_eq!(e.message, "x");
}

#[test]
fn renderer_for_the_terminal_keeps_colors() {
    let r = TreeRenderer::new(ColorConfig::new(false));
    assert!(!r.colors.enabled);
    assert!(r.terminal_width <= 65535);
}

#[test]
fn unicode_digits_are_asked_of_the_regex_crate() {
    assert!(is_digit_exec('7'));
    assert!(!is_digit_exec('x'));
    assert!(is_digit_exec('\u{663}'));
    assert!(is_digit_exec('\u{FF17}'));
    assert!(is_digit_exec('\u{0967}'));
    assert!(!is_digit_exec('\u{65E5}'));
    assert!(!is_digit_exec('\u{2167}'));
    assert!(!is_digit_exec('\u{B2}'));
}

#[test]
fn renderer_width_comes_from_the_terminal_or_is_80() {
    assert_eq!(TreeRenderer::for_columns(ColorConfig::new(false), None).terminal_width, 80);
    assert_eq!(TreeRenderer::for_columns(ColorConfig::new(false), Some(132)).terminal_width, 132);
    let w = TreeRenderer::new(ColorConfig::new(false)).terminal_width;
    assert!(w <= 65535);
}

#[test]
fn word_class_ascii_part() {
    use_word('a', true);
    use_word('Z', true);
    use_word('5', true);
    use_word('_', true);
    use_word('-', false);
    use_word(' ', false);
    use_word('\u{E9}', true);
    use_word('\u{2003}', false);
}

fn use_word(c: char, expected: bool) {
    assert_eq!(flowtracer::text::is_word_exec(c), expected, "{c:?}");
}
