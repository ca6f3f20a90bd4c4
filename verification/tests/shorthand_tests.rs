use godspeed_cli::number::parse_decimal;
use godspeed_cli::shorthand::{count_list_markers, parse_task, split_whitespace};
use godspeed_cli::text::{char_is_space, find, starts_with, to_chars, trim_range};

fn chars(s: &str) -> Vec<char> {
    s.chars().collect()
}

#[test]
fn parses_full_shorthand() {
    let (task, list, labels) = parse_task("Buy milk @errands :15 .shopping n: get 2%");
    assert_eq!(task.title, "Buy milk");
    assert_eq!(list, Some("errands".to_string()));
    assert_eq!(task.duration_minutes, Some(15));
    assert_eq!(labels, vec!["shopping".to_string()]);
    assert_eq!(task.notes, "get 2%");
    assert_eq!(task.list_id, None);
    assert!(task.label_ids.is_empty());
}

#[test]
fn duration_that_is_no_number_stays_in_title() {
    let (task, list, labels) = parse_task("Fix bug :abc @work");
    assert_eq!(task.title, "Fix bug :abc");
    assert_eq!(list, Some("work".to_string()));
    assert_eq!(task.duration_minutes, None);
    assert!(labels.is_empty());
    assert_eq!(task.notes, "");
}

#[test]
fn bare_markers_are_dropped() {
    let (task, list, labels) = parse_task("a . @ b");
    assert_eq!(task.title, "a b");
    assert_eq!(list, None);
    assert!(labels.is_empty());
}

#[test]
fn bare_duration_marker_stays_in_title() {
    let (task, _, _) = parse_task("a : b");
    assert_eq!(task.title, "a : b");
    assert_eq!(task.duration_minutes, None);
}

#[test]
fn last_list_and_last_duration_win() {
    let (task, list, _) = parse_task("x @one :5 @two :7");
    assert_eq!(task.title, "x");
    assert_eq!(list, Some("two".to_string()));
    assert_eq!(task.duration_minutes, Some(7));
}

#[test]
fn labels_keep_order_and_duplicates() {
    let (_, _, labels) = parse_task(".b .a .b t");
    assert_eq!(labels, vec!["b".to_string(), "a".to_string(), "b".to_string()]);
}

#[test]
fn only_one_marker_character_is_stripped() {
    let (task, list, labels) = parse_task("..tag @@home ::12 x");
    assert_eq!(labels, vec![".tag".to_string()]);
    assert_eq!(list, Some("@home".to_string()));
    assert_eq!(task.duration_minutes, None);
    assert_eq!(task.title, "::12 x");
}

#[test]
fn signed_durations() {
    assert_eq!(parse_task(":+5").0.duration_minutes, Some(5));
    assert_eq!(parse_task(":-3").0.duration_minutes, Some(-3));
    assert_eq!(parse_task(":2147483647").0.duration_minutes, Some(2147483647));
    assert_eq!(parse_task(":-2147483648").0.duration_minutes, Some(-2147483648));
    let (task, _, _) = parse_task(":2147483648");
    assert_eq!(task.duration_minutes, None);
    assert_eq!(task.title, ":2147483648");
}

#[test]
fn notes_are_trimmed_and_end_the_main_part() {
    let (task, list, _) = parse_task("call mom n:   bring cake   @late ");
    assert_eq!(task.title, "call mom");
    assert_eq!(task.notes, "bring cake   @late");
    assert_eq!(list, None);
}

#[test]
fn only_the_first_notes_separator_is_stripped() {
    let (task, _, _) = parse_task("Call mom n: n: urgent");
    assert_eq!(task.title, "Call mom");
    assert_eq!(task.notes, "n: urgent");
    let (task, _, _) = parse_task("t n: n:x n: y");
    assert_eq!(task.title, "t");
    assert_eq!(task.notes, "n:x n: y");
}

#[test]
fn notes_separator_needs_its_space() {
    let (task, _, _) = parse_task("n: hello");
    assert_eq!(task.title, "n: hello");
    assert_eq!(task.notes, "");
}

#[test]
fn empty_input_gives_empty_task() {
    let (task, list, labels) = parse_task("");
    assert_eq!(task.title, "");
    assert_eq!(task.notes, "");
    assert_eq!(list, None);
    assert!(labels.is_empty());
    assert_eq!(task.duration_minutes, None);
}

#[test]
fn title_words_are_joined_by_single_spaces() {
    let (task, _, _) = parse_task("  a \t b\n\nc  ");
    assert_eq!(task.title, "a b c");
}

#[test]
fn title_holds_no_marker_that_was_read() {
    let (task, _, _) = parse_task("one .l two @x three :9 four :z");
    assert_eq!(task.title, "one two three four :z");
    for word in split_whitespace(&task.title) {
        assert!(!word.starts_with('.'));
        assert!(!word.starts_with('@'));
        assert!(!(word.starts_with(':') && word[1..].parse::<i32>().is_ok()));
    }
}

#[test]
fn splits_on_unicode_whitespace() {
    assert_eq!(
        split_whitespace("a\u{a0}b\u{3000}c\u{2003}d"),
        vec!["a".to_string(), "b".to_string(), "c".to_string(), "d".to_string()]
    );
    assert!(split_whitespace(" \t\n").is_empty());
}

#[test]
fn whitespace_agrees_with_the_standard_library() {
    let mut n: u32 = 0;
    while n < 0x3100 {
        if let Some(c) = char::from_u32(n) {
            assert_eq!(char_is_space(c), c.is_whitespace());
        }
        n += 1;
    }
}

#[test]
fn counts_list_markers_in_the_whole_input() {
    assert_eq!(count_list_markers("a @b c"), 1);
    assert_eq!(count_list_markers("a @b @ c"), 2);
    assert_eq!(count_list_markers("a b@c"), 0);
    assert_eq!(count_list_markers("a @b n: see @c"), 2);
}

#[test]
fn decimal_numbers() {
    let v = chars("x42y");
    assert_eq!(parse_decimal(&v, 1, 3), Some(42));
    assert_eq!(parse_decimal(&v, 0, 3), None);
    assert_eq!(parse_decimal(&v, 1, 1), None);
    assert_eq!(parse_decimal(&chars("-"), 0, 1), None);
    assert_eq!(parse_decimal(&chars("+"), 0, 1), None);
    assert_eq!(parse_decimal(&chars("+-1"), 0, 3), None);
    assert_eq!(parse_decimal(&chars("007"), 0, 3), Some(7));
    assert_eq!(parse_decimal(&chars("-0"), 0, 2), Some(0));
    assert_eq!(parse_decimal(&chars("99999999999999999999999"), 0, 23), None);
    assert_eq!(parse_decimal(&chars("1 "), 0, 2), None);
    assert_eq!(parse_decimal(&chars("\u{661}"), 0, 1), None);
}

#[test]
fn decimal_numbers_agree_with_the_standard_library() {
    for s in ["0", "12", "-12", "+12", "", "-", "1a", "2147483647", "2147483648", "-2147483648",
        "-2147483649", "000000000000123", "--1", "1-"] {
        let v = chars(s);
        assert_eq!(parse_decimal(&v, 0, v.len()), s.parse::<i32>().ok());
    }
}

#[test]
fn text_helpers() {
    assert_eq!(to_chars("héllo"), chars("héllo"));
    assert_eq!(find(&chars("abcabc"), &chars("bc")), Some(1));
    assert_eq!(find(&chars("abcabc"), &chars("cb")), None);
    assert_eq!(find(&chars("abc"), &chars("")), Some(0));
    assert_eq!(trim_range(&chars("  ab c \n"), 0, 8), (2, 6));
    assert_eq!(trim_range(&chars("   "), 0, 3), (3, 3));
    assert!(starts_with("errands", "err"));
    assert!(starts_with("errands", ""));
    assert!(!starts_with("err", "errands"));
    assert!(!starts_with("errands", "rr"));
}
