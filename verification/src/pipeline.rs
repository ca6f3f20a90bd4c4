//! The decisions of one run: which step an input needs next, given the
//! caches as they stand, and what its outcome means for the retry queue.

use crate::cache::{find_matching_key, is_match, lowercase_of, ReferenceCache};
use crate::queue::{
    add_to_cache, entry_end, get_cached_tasks, queue_entries, queue_without, remove_from_cache,
};
use crate::shorthand::{
    count_list_markers, duration_of, labels_of, list_marker_count, list_of, main_words, notes_of,
    parse_task, split_words, title_of, TaskRequest,
};
use crate::text::{opt_string, strings};
use vstd::prelude::*;
use vstd::string::*;

verus! {

/// What an input needs next.
#[derive(Debug)]
pub enum Step {
    /// The list it names is not in the cache: fetch the lists anew.
    FetchLists,
    /// One of its labels is not in the cache: fetch the labels anew.
    FetchLabels,
    /// It names more than one list: it is not submitted, and not queued.
    Reject,
    /// Nothing more is needed: the resolved request goes to the remote service.
    Submit(TaskRequest),
}

/// How the work on one input ended.
#[derive(Clone, Copy, PartialEq, Eq, Debug)]
pub enum Outcome {
    /// The remote service took the task.
    Submitted,
    /// The input named more than one list.
    Rejected,
    /// A fetch or the submission failed.
    Failed,
}

/// Whether a lookup of `name` in `m` finds nothing: neither the lower-cased
/// name as a key nor a key that starts with it.
pub open spec fn misses(m: Map<Seq<char>, Seq<char>>, name: Seq<char>) -> bool {
    is_match(m, lowercase_of(name), None)
}

/// Whether a lookup of one of the names finds nothing.
pub open spec fn any_miss(m: Map<Seq<char>, Seq<char>>, names: Seq<Seq<char>>) -> bool {
    exists|i: int| 0 <= i < names.len() && misses(m, #[trigger] names[i])
}

/// Whether `ids` holds, in the order of the names, one identifier that a
/// lookup may return for each name that a lookup finds, and nothing else.
pub open spec fn resolves(
    m: Map<Seq<char>, Seq<char>>,
    names: Seq<Seq<char>>,
    ids: Seq<Seq<char>>,
) -> bool
    decreases names.len(),
{
    if names.len() == 0 {
        ids.len() == 0
    } else if misses(m, names.last()) {
        resolves(m, names.drop_last(), ids)
    } else {
        ids.len() > 0 && is_match(m, lowercase_of(names.last()), Some(ids.last())) && resolves(
            m,
            names.drop_last(),
            ids.drop_last(),
        )
    }
}

/// The input names a list that the cache does not hold, and the cache was
/// not fetched in this run.
pub open spec fn needs_lists(input: Seq<char>, lists: Map<Seq<char>, Seq<char>>, fresh: bool) -> bool {
    !fresh && match list_of(main_words(input)) {
        Some(name) => misses(lists, name),
        None => false,
    }
}

/// The input names a label that the cache does not hold, and the cache was
/// not fetched in this run.
pub open spec fn needs_labels(
    input: Seq<char>,
    labels: Map<Seq<char>, Seq<char>>,
    fresh: bool,
) -> bool {
    !fresh && any_miss(labels, labels_of(main_words(input)))
}

/// The input holds more than one word that starts with the list marker.
pub open spec fn has_many_lists(input: Seq<char>) -> bool {
    list_marker_count(split_words(input)) > 1
}

/// Whether `task` is the input with its references resolved: title,
/// duration and notes as written; the list's identifier where a lookup
/// finds the list; the identifiers of the labels that a lookup finds.
pub open spec fn is_resolved(
    input: Seq<char>,
    lists: Map<Seq<char>, Seq<char>>,
    labels: Map<Seq<char>, Seq<char>>,
    task: TaskRequest,
) -> bool {
    &&& task.title@ == title_of(input)
    &&& task.duration_minutes == duration_of(main_words(input))
    &&& task.notes@ == notes_of(input)
    &&& match list_of(main_words(input)) {
        Some(name) => is_match(lists, lowercase_of(name), opt_string(task.list_id)),
        None => task.list_id is None,
    }
    &&& resolves(labels, labels_of(main_words(input)), strings(task.label_ids@))
}

/// A lookup finds nothing exactly where `misses` says so.
proof fn lemma_found(m: Map<Seq<char>, Seq<char>>, name: Seq<char>, r: Option<Seq<char>>)
    requires
        is_match(m, lowercase_of(name), r),
    ensures
        r is None <==> misses(m, name),
{
    if r is Some && misses(m, name) {
        let lower = lowercase_of(name);
        assert(!m.contains_key(lower));
        let k = choose|k: Seq<char>|
            #[trigger] m.contains_key(k) && lower.is_prefix_of(k) && m[k] == r->0;
        assert(m.contains_key(k));
    }
}

/// Decides the next step for one input. The caller fetches what is asked
/// for, marks that cache as fresh and asks again, until the answer is to
/// submit or to reject. A cache is fetched at most once: what is still not
/// found in a fresh cache is left out of the task.
#[verifier::loop_isolation(false)]
pub fn process_task(
    task_str: &str,
    lists: &ReferenceCache,
    lists_fresh: bool,
    labels: &ReferenceCache,
    labels_fresh: bool,
) -> (r: Step)
    requires
        lists.wf(),
        labels.wf(),
    ensures
        match r {
            Step::FetchLists => needs_lists(task_str@, lists@, lists_fresh),
            Step::FetchLabels => !needs_lists(task_str@, lists@, lists_fresh) && needs_labels(
                task_str@,
                labels@,
                labels_fresh,
            ),
            Step::Reject => !needs_lists(task_str@, lists@, lists_fresh) && !needs_labels(
                task_str@,
                labels@,
                labels_fresh,
            ) && has_many_lists(task_str@),
            Step::Submit(task) => !needs_lists(task_str@, lists@, lists_fresh) && !needs_labels(
                task_str@,
                labels@,
                labels_fresh,
            ) && !has_many_lists(task_str@) && is_resolved(task_str@, lists@, labels@, task),
        },
{
    let (mut parsed, list_name, label_names) = parse_task(task_str);
    let ghost names = labels_of(main_words(task_str@));
    match &list_name {
        Some(name) => {
            let found = find_matching_key(lists, name.as_str());
            proof {
                lemma_found(lists@, name@, opt_string(found));
            }
            if found.is_none() && !lists_fresh {
                return Step::FetchLists;
            }
            parsed.list_id = found;
        },
        None => {},
    }
    let mut ids: Vec<String> = Vec::new();
    let mut missed = false;
    let mut i: usize = 0;
    while i < label_names.len()
        invariant
            i <= label_names@.len(),
            strings(label_names@) == names,
            resolves(labels@, names.take(i as int), strings(ids@)),
            missed == any_miss(labels@, names.take(i as int)),
        decreases label_names@.len() - i,
    {
        let found = find_matching_key(labels, label_names[i].as_str());
        proof {
            let name = names[i as int];
            lemma_found(labels@, name, opt_string(found));
            assert(names.take(i + 1).drop_last() =~= names.take(i as int));
            assert(names.take(i + 1).last() == name);
            if any_miss(labels@, names.take(i as int)) {
                let j = choose|j: int|
                    0 <= j < names.take(i as int).len() && misses(
                        labels@,
                        #[trigger] names.take(i as int)[j],
                    );
                assert(misses(labels@, names.take(i + 1)[j]));
            }
            if misses(labels@, name) {
                assert(misses(labels@, names.take(i + 1)[i as int]));
            }
            if any_miss(labels@, names.take(i + 1)) {
                let j = choose|j: int|
                    0 <= j < names.take(i + 1).len() && misses(
                        labels@,
                        #[trigger] names.take(i + 1)[j],
                    );
                if j < i {
                    assert(misses(labels@, names.take(i as int)[j]));
                }
            }
        }
        match found {
            Some(id) => {
                proof {
                    assert(strings(ids@.push(id)) =~= strings(ids@).push(id@));
                    assert(strings(ids@).push(id@).drop_last() =~= strings(ids@));
                }
                ids.push(id);
            },
            None => {
                missed = true;
            },
        }
        i += 1;
    }
    assert(names.take(i as int) =~= names);
    if missed && !labels_fresh {
        return Step::FetchLabels;
    }
    parsed.label_ids = ids;
    if count_list_markers(task_str) > 1 {
        return Step::Reject;
    }
    Step::Submit(parsed)
}

/// One piece of work of a run.
#[derive(Debug)]
pub enum Work {
    /// An entry of the retry queue, to be tried again.
    Replay(String),
    /// The input of the run.
    Process(String),
}

/// The text that a piece of work is about.
pub open spec fn work_text(w: Work) -> Seq<char> {
    match w {
        Work::Replay(s) => s@,
        Work::Process(s) => s@,
    }
}

/// Whether `plan` is the work of a run on the queue `queue` with the input
/// `input`: every entry that the queue holds at the start, in its order,
/// and then the input, unless it is empty.
pub open spec fn is_plan(plan: Seq<Work>, queue: Seq<char>, input: Seq<char>) -> bool {
    let entries = queue_entries(queue);
    &&& plan.len() == entries.len() + (if input.len() > 0 {
        1int
    } else {
        0int
    })
    &&& forall|i: int|
        0 <= i < entries.len() ==> (#[trigger] plan[i]) is Replay && work_text(plan[i])
            == entries[i]
    &&& input.len() > 0 ==> plan.last() is Process && work_text(plan.last()) == input
}

/// Lays out a run: the entries of the queue as they stand at the start are
/// replayed first, then the input is worked on, if there is one. Entries
/// that join the queue during the run are left for the next.
pub fn plan_run(queue: &str, input: &str) -> (plan: Vec<Work>)
    ensures
        is_plan(plan@, queue@, input@),
{
    let entries = get_cached_tasks(queue);
    let ghost es = queue_entries(queue@);
    let mut plan: Vec<Work> = Vec::new();
    let mut i: usize = 0;
    while i < entries.len()
        invariant
            i <= entries@.len(),
            strings(entries@) == es,
            plan@.len() == i,
            forall|k: int|
                0 <= k < i ==> (#[trigger] plan@[k]) is Replay && work_text(plan@[k]) == es[k],
        decreases entries@.len() - i,
    {
        let entry = entries[i].clone();
        assert(entry@ == es[i as int]);
        plan.push(Work::Replay(entry));
        i += 1;
    }
    if !input.is_empty() {
        plan.push(Work::Process(input.to_owned()));
    }
    plan
}

/// What becomes of the queue when an entry of it was replayed: the entry
/// leaves where the task was submitted, and stays otherwise. None means
/// that the log stays as it is.
pub fn settle_replayed(queue: &str, entry: &str, outcome: Outcome) -> (r: Option<String>)
    ensures
        opt_string(r) == match outcome {
            Outcome::Submitted => Some(queue_without(queue@, entry@)),
            _ => None,
        },
{
    match outcome {
        Outcome::Submitted => Some(remove_from_cache(queue, entry)),
        _ => None,
    }
}

/// What becomes of the queue when a new input was worked on: the input is
/// appended as it was written where a fetch or the submission failed, and
/// only then. None means that the log stays as it is.
pub fn settle_input(queue: &str, input: &str, outcome: Outcome) -> (r: Option<String>)
    ensures
        opt_string(r) == match outcome {
            Outcome::Failed => Some(queue@ + input@ + entry_end()),
            _ => None,
        },
{
    match outcome {
        Outcome::Failed => Some(add_to_cache(queue, input)),
        _ => None,
    }
}

} // verus!
