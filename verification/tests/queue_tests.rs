use godspeed_cli::queue::{
    add_to_cache, get_cached_tasks, remove_all_from_cache, remove_from_cache, split_pieces,
};

fn s(x: &str) -> String {
    x.to_string()
}

#[test]
fn entry_is_appended_with_its_separator_line() {
    assert_eq!(add_to_cache("", "buy milk @errands"), "buy milk @errands\n---\n");
    assert_eq!(add_to_cache("a\n---\n", "b"), "a\n---\nb\n---\n");
}

#[test]
fn drained_queue_holds_what_was_enqueued() {
    let q = add_to_cache(&add_to_cache("", "first"), "second task");
    assert_eq!(get_cached_tasks(&q), vec![s("first"), s("second task")]);
}

#[test]
fn removed_entry_is_gone() {
    let q = add_to_cache(&add_to_cache("", "first"), "second");
    let q = remove_from_cache(&q, "second");
    assert_eq!(get_cached_tasks(&q), vec![s("first")]);
    assert_eq!(q, "first\n\n---\n");
    assert_eq!(remove_from_cache(&q, "first"), "");
}

#[test]
fn identical_entries_are_kept_and_removed_together() {
    let q = add_to_cache(&add_to_cache(&add_to_cache("", "x"), "y"), "x");
    assert_eq!(get_cached_tasks(&q), vec![s("x"), s("y"), s("x")]);
    let q = remove_from_cache(&q, "x");
    assert_eq!(get_cached_tasks(&q), vec![s("y")]);
}

#[test]
fn removing_what_is_not_there_keeps_the_entries() {
    let q = "a\n---\nb\n---\n";
    let r = remove_from_cache(q, "c");
    assert_eq!(r, "a\n---\nb\n\n---\n");
    assert_eq!(get_cached_tasks(&r), vec![s("a"), s("b")]);
}

#[test]
fn entries_are_trimmed_and_blank_pieces_skipped() {
    assert_eq!(get_cached_tasks("  a  \n---\n\n \n---\nb"), vec![s("a"), s("b")]);
    assert!(get_cached_tasks("").is_empty());
    assert!(get_cached_tasks("---\n---\n").is_empty());
}

#[test]
fn multi_line_entry_is_one_entry() {
    let q = add_to_cache("", "line one\nline two");
    assert_eq!(get_cached_tasks(&q), vec![s("line one\nline two")]);
}

#[test]
fn replaying_every_entry_empties_the_queue() {
    let mut q = String::new();
    for t in ["c task", "a task", "b task", "a task"] {
        q = add_to_cache(&q, t);
    }
    let snapshot = get_cached_tasks(&q);
    assert_eq!(snapshot.len(), 4);
    for entry in snapshot {
        q = remove_from_cache(&q, &entry);
    }
    assert_eq!(q, "");
    assert!(get_cached_tasks(&q).is_empty());
}

#[test]
fn pieces_are_cut_at_separator_lines() {
    let v: Vec<char> = "a\n---\nb".chars().collect();
    assert_eq!(split_pieces(&v), vec![(0, 2), (6, 7)]);
    let v: Vec<char> = "a---\nb".chars().collect();
    assert_eq!(split_pieces(&v), vec![(0, 6)]);
    let v: Vec<char> = "ab".chars().collect();
    assert_eq!(split_pieces(&v), vec![(0, 2)]);
    let v: Vec<char> = "---\n".chars().collect();
    assert_eq!(split_pieces(&v), vec![(0, 0), (4, 4)]);
}

#[test]
fn dashes_inside_a_line_do_not_cut() {
    let q = add_to_cache("", "Buy tape ---");
    assert_eq!(q, "Buy tape ---\n---\n");
    assert_eq!(get_cached_tasks(&q), vec![s("Buy tape ---")]);
    assert_eq!(get_cached_tasks("a---\nb\n---\nc"), vec![s("a---\nb"), s("c")]);
    assert_eq!(remove_from_cache(&q, "Buy tape ---"), "");
}

#[test]
fn unterminated_separator_line_at_the_end_is_text() {
    assert_eq!(get_cached_tasks("abc\n---"), vec![s("abc\n---")]);
    assert_eq!(remove_from_cache("abc\n---", "other"), "abc\n---\n---\n");
}

#[test]
fn whitespace_only_input_adds_no_entry() {
    let q = add_to_cache("x\n---\n", "  \t ");
    assert_eq!(get_cached_tasks(&q), vec![s("x")]);
}

#[test]
fn untrimmed_input_is_drained_trimmed() {
    let q = add_to_cache("", "  task one  ");
    assert_eq!(q, "  task one  \n---\n");
    assert_eq!(get_cached_tasks(&q), vec![s("task one")]);
    assert_eq!(remove_from_cache(&q, "  task one  "), "  task one  \n\n---\n");
    assert_eq!(remove_from_cache(&q, "task one"), "");
}

#[test]
fn removing_every_drained_entry_leaves_an_empty_log() {
    let q = " b \n---\n\n---\na---\n---\nb\n---\nc ---\nd\n---\n";
    let snapshot = get_cached_tasks(q);
    assert_eq!(snapshot, vec![s("b"), s("a---"), s("b"), s("c ---\nd")]);
    assert_eq!(remove_all_from_cache(q, &snapshot), "");
    assert_eq!(remove_all_from_cache(q, &vec![s("b")]), "a---\n---\nc ---\nd\n\n---\n");
    assert_eq!(remove_all_from_cache(q, &Vec::new()), q);
}
