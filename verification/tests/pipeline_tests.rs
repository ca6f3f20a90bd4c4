use godspeed_cli::cache::ReferenceCache;
use godspeed_cli::paths::{get_cache_path, get_labels_path, get_lists_path, get_xdg_data_home, join_path};
use godspeed_cli::pipeline::{process_task, settle_input, settle_replayed, Outcome, Step};

fn s(x: &str) -> String {
    x.to_string()
}

fn cache(pairs: &[(&str, &str)]) -> ReferenceCache {
    let mut c = ReferenceCache::new();
    for (k, v) in pairs {
        c.insert(s(k), s(v));
    }
    c
}

#[test]
fn resolved_task_is_submitted() {
    let lists = cache(&[("errands", "L1")]);
    let labels = cache(&[("shopping", "B1"), ("urgent", "B2")]);
    let step = process_task("Buy milk @Errands :15 .shop .urgent n: get 2%", &lists, false, &labels, false);
    match step {
        Step::Submit(task) => {
            assert_eq!(task.title, "Buy milk");
            assert_eq!(task.list_id, Some(s("L1")));
            assert_eq!(task.duration_minutes, Some(15));
            assert_eq!(task.label_ids, vec![s("B1"), s("B2")]);
            assert_eq!(task.notes, "get 2%");
        }
        _ => panic!("expected a submission"),
    }
}

#[test]
fn unknown_list_asks_for_a_fetch_once() {
    let lists = cache(&[("home", "L1")]);
    let labels = ReferenceCache::new();
    assert!(matches!(process_task("t @work", &lists, false, &labels, false), Step::FetchLists));
    match process_task("t @work", &lists, true, &labels, false) {
        Step::Submit(task) => {
            assert_eq!(task.title, "t");
            assert_eq!(task.list_id, None);
        }
        _ => panic!("expected a submission"),
    }
}

#[test]
fn unknown_label_asks_for_a_fetch_once() {
    let lists = ReferenceCache::new();
    let labels = cache(&[("a", "B1")]);
    assert!(matches!(process_task("t .a .b", &lists, false, &labels, false), Step::FetchLabels));
    match process_task("t .b .a .c", &lists, false, &labels, true) {
        Step::Submit(task) => assert_eq!(task.label_ids, vec![s("B1")]),
        _ => panic!("expected a submission"),
    }
}

#[test]
fn lists_are_fetched_before_labels() {
    let empty = ReferenceCache::new();
    assert!(matches!(process_task("t @l .b", &empty, false, &empty, false), Step::FetchLists));
    assert!(matches!(process_task("t @l .b", &empty, true, &empty, false), Step::FetchLabels));
    assert!(matches!(process_task("t @l .b", &empty, true, &empty, true), Step::Submit(_)));
}

#[test]
fn two_list_markers_are_rejected_and_not_queued() {
    let lists = cache(&[("a", "L1"), ("b", "L2")]);
    let labels = ReferenceCache::new();
    assert!(matches!(process_task("t @a @b", &lists, false, &labels, false), Step::Reject));
    assert!(matches!(process_task("t @a @", &lists, false, &labels, false), Step::Reject));
    assert_eq!(settle_input("", "t @a @b", Outcome::Rejected), None);
}

#[test]
fn fetch_comes_before_rejection() {
    let empty = ReferenceCache::new();
    assert!(matches!(process_task("t @a @b", &empty, false, &empty, false), Step::FetchLists));
    assert!(matches!(process_task("t @a @b", &empty, true, &empty, false), Step::Reject));
}

#[test]
fn failed_input_is_appended_verbatim() {
    assert_eq!(
        settle_input("old\n---\n", "  Buy milk @errands ", Outcome::Failed),
        Some(s("old\n---\n  Buy milk @errands \n---\n"))
    );
    assert_eq!(settle_input("old\n---\n", "x", Outcome::Submitted), None);
}

#[test]
fn replayed_entry_leaves_only_on_success() {
    let q = "a\n---\nb\n---\n";
    assert_eq!(settle_replayed(q, "a", Outcome::Submitted), Some(s("b\n\n---\n")));
    assert_eq!(settle_replayed(q, "a", Outcome::Failed), None);
    assert_eq!(settle_replayed(q, "a", Outcome::Rejected), None);
}

#[test]
fn paths_lie_below_the_data_directory() {
    assert_eq!(get_cache_path("/home/u/.local/share"), "/home/u/.local/share/godspeed-cli/cache");
    assert_eq!(get_lists_path("/data/"), "/data/godspeed-cli/lists.toml");
    assert_eq!(get_labels_path(""), "godspeed-cli/labels.toml");
}

#[test]
fn data_directory_follows_the_environment() {
    assert_eq!(get_xdg_data_home(Some("/x"), Some("/home/u")), "/x");
    assert_eq!(get_xdg_data_home(None, Some("/home/u")), "/home/u/.local/share");
    assert_eq!(get_xdg_data_home(None, None), ".local/share");
    assert_eq!(join_path("a/", "b"), "a/b");
}

#[test]
fn joined_paths_agree_with_the_standard_library() {
    for base in ["", "/", "/a", "/a/", "rel", "rel/x/"] {
        let expected = std::path::PathBuf::from(base).join("godspeed-cli").join("cache");
        assert_eq!(get_cache_path(base), expected.to_str().unwrap());
    }
}

#[test]
fn run_replays_the_queue_before_the_input() {
    let plan = godspeed_cli::pipeline::plan_run("b\n---\na\n---\n", "new task");
    assert_eq!(plan.len(), 3);
    assert!(matches!(&plan[0], godspeed_cli::pipeline::Work::Replay(e) if e == "b"));
    assert!(matches!(&plan[1], godspeed_cli::pipeline::Work::Replay(e) if e == "a"));
    assert!(matches!(&plan[2], godspeed_cli::pipeline::Work::Process(e) if e == "new task"));
}

#[test]
fn run_without_input_only_replays() {
    let plan = godspeed_cli::pipeline::plan_run("a\n---\n", "");
    assert_eq!(plan.len(), 1);
    assert!(matches!(&plan[0], godspeed_cli::pipeline::Work::Replay(e) if e == "a"));
    assert!(godspeed_cli::pipeline::plan_run("", "").is_empty());
}

#[test]
fn notification_script_escapes_double_quotes() {
    assert_eq!(
        godspeed_cli::notify::notification_script("Failed to send task"),
        "display notification \"Failed to send task\" with title \"Godspeed CLI\""
    );
    assert_eq!(
        godspeed_cli::notify::notification_script("say \"hi\""),
        "display notification \"say \\\"hi\\\"\" with title \"Godspeed CLI\""
    );
}
