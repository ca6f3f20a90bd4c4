//! The retry queue: the text of a log that holds, one after the other, the
//! inputs whose submission failed, each followed by a separator line.

use crate::text::{find_from, matches_at, occurs_at, strings, substring, to_chars, trim, trim_range};
use vstd::prelude::*;
use vstd::string::*;

verus! {

/// The separator line, with the line break that ends it.
pub open spec fn separator() -> Seq<char> {
    seq!['-', '-', '-', '\n']
}

/// What follows an entry in the log: the break that ends the entry's line,
/// then the separator line.
pub open spec fn entry_end() -> Seq<char> {
    seq!['\n', '-', '-', '-', '\n']
}

/// Whether a separator line starts at index `i`: the separator stands
/// there, at the start of the text or of a line.
pub open spec fn cut_at(s: Seq<char>, i: int) -> bool {
    occurs_at(s, separator(), i) && (i == 0 || s[i - 1] == '\n')
}

/// How many characters lie between index `i` and the next separator line at
/// or after it, or the end of the text.
pub open spec fn gap(s: Seq<char>, i: int) -> nat
    decreases s.len() - i,
{
    if i < 0 || i >= s.len() || cut_at(s, i) {
        0
    } else {
        1 + gap(s, i + 1)
    }
}

/// The pieces into which the separator lines cut the text from index `from`
/// on.
pub open spec fn pieces_from(s: Seq<char>, from: int) -> Seq<Seq<char>>
    decreases
            if from <= s.len() {
                s.len() - from
            } else {
                0
            },
{
    if from < 0 || from > s.len() {
        Seq::empty()
    } else {
        let e = from + gap(s, from);
        if e >= s.len() {
            Seq::empty().push(s.subrange(from, s.len() as int))
        } else {
            Seq::empty().push(s.subrange(from, e)) + pieces_from(s, e + 4)
        }
    }
}

/// The pieces into which the separator lines cut the text.
pub open spec fn pieces(s: Seq<char>) -> Seq<Seq<char>> {
    pieces_from(s, 0)
}

/// The pieces that hold more than whitespace, each trimmed, in order.
pub open spec fn kept_entries(ps: Seq<Seq<char>>) -> Seq<Seq<char>>
    decreases ps.len(),
{
    if ps.len() == 0 {
        Seq::empty()
    } else if trim(ps.last()).len() > 0 {
        kept_entries(ps.drop_last()).push(trim(ps.last()))
    } else {
        kept_entries(ps.drop_last())
    }
}

/// The entries that a log holds, in the order of the log.
pub open spec fn queue_entries(content: Seq<char>) -> Seq<Seq<char>> {
    kept_entries(pieces(content))
}

/// The pieces that hold more than whitespace and, trimmed, differ from
/// `task`; each as it stands in the log.
pub open spec fn remaining_pieces(ps: Seq<Seq<char>>, task: Seq<char>) -> Seq<Seq<char>>
    decreases ps.len(),
{
    if ps.len() == 0 {
        Seq::empty()
    } else if trim(ps.last()).len() > 0 && trim(ps.last()) != task {
        remaining_pieces(ps.drop_last(), task).push(ps.last())
    } else {
        remaining_pieces(ps.drop_last(), task)
    }
}

/// The pieces with a separator between each two.
pub open spec fn join_pieces(ps: Seq<Seq<char>>) -> Seq<char>
    decreases ps.len(),
{
    if ps.len() == 0 {
        Seq::empty()
    } else if ps.len() == 1 {
        ps[0]
    } else {
        join_pieces(ps.drop_last()) + separator() + ps.last()
    }
}

/// The log without the entries that equal `task`: empty where nothing is
/// left, else what is left, joined, with one entry end behind it.
pub open spec fn queue_without(content: Seq<char>, task: Seq<char>) -> Seq<char> {
    let left = remaining_pieces(pieces(content), task);
    if left.len() == 0 {
        Seq::empty()
    } else {
        join_pieces(left) + entry_end()
    }
}

/// The entries without those that equal `x`.
pub open spec fn without(es: Seq<Seq<char>>, x: Seq<char>) -> Seq<Seq<char>>
    decreases es.len(),
{
    if es.len() == 0 {
        Seq::empty()
    } else if es.last() != x {
        without(es.drop_last(), x).push(es.last())
    } else {
        without(es.drop_last(), x)
    }
}

/// The log after each of the tasks, in order, was removed from it.
pub open spec fn replayed(content: Seq<char>, tasks: Seq<Seq<char>>) -> Seq<char>
    decreases tasks.len(),
{
    if tasks.len() == 0 {
        content
    } else {
        replayed(queue_without(content, tasks.first()), tasks.drop_first())
    }
}

/// The texts that index ranges cut out of `s`.
pub open spec fn cut(s: Seq<char>, ranges: Seq<(usize, usize)>) -> Seq<Seq<char>> {
    Seq::new(ranges.len(), |k: int| s.subrange(ranges[k].0 as int, ranges[k].1 as int))
}

/// The gap from `from` ends at `e` where no separator line starts before
/// `e` and `e` is the end of the text or starts one.
pub proof fn lemma_gap(s: Seq<char>, from: int, e: int)
    requires
        0 <= from <= e <= s.len(),
        forall|j: int| from <= j < e ==> !cut_at(s, j),
        e == s.len() || cut_at(s, e),
    ensures
        from + gap(s, from) == e,
    decreases e - from,
{
    if from < e {
        lemma_gap(s, from + 1, e);
    }
}

/// The first index at or after `from` at which a separator line starts.
fn find_cut(v: &Vec<char>, sep: &Vec<char>, from: usize) -> (r: Option<usize>)
    requires
        from <= v@.len(),
        sep@ == separator(),
    ensures
        match r {
            Some(e) => from <= e && cut_at(v@, e as int) && forall|j: int|
                from <= j < e ==> !cut_at(v@, j),
            None => forall|j: int| from <= j ==> !cut_at(v@, j),
        },
{
    let mut i: usize = from;
    loop
        invariant
            from <= i <= v@.len(),
            sep@ == separator(),
            forall|j: int| from <= j < i ==> !cut_at(v@, j),
        decreases v@.len() - i,
    {
        match find_from(v, sep, i) {
            Some(e) => {
                if e == 0 || v[e - 1] == '\n' {
                    return Some(e);
                }
                assert(separator().len() == 4);
                assert(e + 4 <= v@.len() && v@.len() == v.len());
                i = e + 1;
            },
            None => {
                return None;
            },
        }
    }
}

/// The index ranges of the pieces of `v`.
pub fn split_pieces(v: &Vec<char>) -> (r: Vec<(usize, usize)>)
    ensures
        cut(v@, r@) == pieces(v@),
        forall|k: int| 0 <= k < r@.len() ==> (#[trigger] r@[k]).0 <= r@[k].1 <= v@.len(),
{
    let sep: Vec<char> = vec!['-', '-', '-', '\n'];
    assert(sep@ =~= separator());
    let mut r: Vec<(usize, usize)> = Vec::new();
    let mut from: usize = 0;
    let n = v.len();
    loop
        invariant
            n == v@.len(),
            sep@ == separator(),
            from <= n,
            pieces(v@) == cut(v@, r@) + pieces_from(v@, from as int),
            forall|k: int| 0 <= k < r@.len() ==> (#[trigger] r@[k]).0 <= r@[k].1 <= v@.len(),
        decreases n - from,
    {
        let ghost before = cut(v@, r@);
        match find_cut(v, &sep, from) {
            Some(e) => {
                proof {
                    lemma_gap(v@, from as int, e as int);
                    assert(cut(v@, r@.push((from, e))) =~= before.push(
                        v@.subrange(from as int, e as int),
                    ));
                    assert(before.push(v@.subrange(from as int, e as int)) + pieces_from(v@, e + 4)
                        =~= before + (Seq::empty().push(v@.subrange(from as int, e as int))
                        + pieces_from(v@, e + 4)));
                }
                r.push((from, e));
                from = e + 4;
            },
            None => {
                proof {
                    lemma_gap(v@, from as int, n as int);
                    assert(cut(v@, r@.push((from, n))) =~= before.push(
                        v@.subrange(from as int, n as int),
                    ));
                    assert(before.push(v@.subrange(from as int, n as int)) =~= before
                        + Seq::empty().push(v@.subrange(from as int, n as int)));
                }
                r.push((from, n));
                return r;
            },
        }
    }
}

/// The log with one more entry: the task as it was written, the break that
/// ends its line, and the separator line.
pub fn add_to_cache(content: &str, task: &str) -> (r: String)
    ensures
        r@ == content@ + task@ + entry_end(),
{
    proof {
        reveal_strlit("\n---\n");
    }
    assert("\n---\n"@ =~= entry_end());
    let mut r = content.to_owned();
    r.append(task);
    r.append("\n---\n");
    r
}

/// The entries of the log, in its order: what stands between the separator
/// lines, trimmed, but for pieces that hold whitespace only.
pub fn get_cached_tasks(content: &str) -> (r: Vec<String>)
    ensures
        strings(r@) == queue_entries(content@),
{
    let v = to_chars(content);
    let ranges = split_pieces(&v);
    let ghost ps = pieces(v@);
    let mut r: Vec<String> = Vec::new();
    let mut k: usize = 0;
    while k < ranges.len()
        invariant
            v@ == content@,
            cut(v@, ranges@) == ps,
            forall|j: int|
                0 <= j < ranges@.len() ==> (#[trigger] ranges@[j]).0 <= ranges@[j].1 <= v@.len(),
            k <= ranges@.len(),
            strings(r@) == kept_entries(ps.take(k as int)),
        decreases ranges@.len() - k,
    {
        let (lo, hi) = ranges[k];
        proof {
            assert(ranges@[k as int].0 <= ranges@[k as int].1);
            assert(ps.take(k + 1).drop_last() =~= ps.take(k as int));
            assert(ps.take(k + 1).last() == v@.subrange(lo as int, hi as int));
        }
        let (a, b) = trim_range(&v, lo, hi);
        if a < b {
            let entry = substring(content, a, b);
            assert(strings(r@.push(entry)) =~= strings(r@).push(entry@));
            r.push(entry);
        }
        k += 1;
    }
    assert(ps.take(k as int) =~= ps);
    r
}

/// The log without every entry that, trimmed, equals `task`. Pieces that
/// hold whitespace only go too; what stays keeps its text.
pub fn remove_from_cache(content: &str, task: &str) -> (r: String)
    ensures
        r@ == queue_without(content@, task@),
{
    proof {
        reveal_strlit("\n---\n");
        reveal_strlit("---\n");
    }
    assert("\n---\n"@ =~= entry_end());
    assert("---\n"@ =~= separator());
    let v = to_chars(content);
    let t = to_chars(task);
    let ranges = split_pieces(&v);
    let ghost ps = pieces(v@);
    let mut r = String::new();
    let mut any = false;
    let mut k: usize = 0;
    while k < ranges.len()
        invariant
            v@ == content@,
            t@ == task@,
            "---\n"@ == separator(),
            cut(v@, ranges@) == ps,
            forall|j: int|
                0 <= j < ranges@.len() ==> (#[trigger] ranges@[j]).0 <= ranges@[j].1 <= v@.len(),
            k <= ranges@.len(),
            r@ == join_pieces(remaining_pieces(ps.take(k as int), task@)),
            any == (remaining_pieces(ps.take(k as int), task@).len() > 0),
        decreases ranges@.len() - k,
    {
        let (lo, hi) = ranges[k];
        let ghost left = remaining_pieces(ps.take(k as int), task@);
        let ghost piece = v@.subrange(lo as int, hi as int);
        proof {
            assert(ranges@[k as int].0 <= ranges@[k as int].1);
            assert(ps.take(k + 1).drop_last() =~= ps.take(k as int));
            assert(ps.take(k + 1).last() == piece);
            assert(left.push(piece).drop_last() =~= left);
        }
        let (a, b) = trim_range(&v, lo, hi);
        let same = b - a == t.len() && matches_at(&v, &t, a);
        if a < b && !same {
            if any {
                r.append("---\n");
            }
            r.append(content.substring_char(lo, hi));
            any = true;
        }
        k += 1;
    }
    assert(ps.take(k as int) =~= ps);
    if any {
        r.append("\n---\n");
    }
    r
}

/// The log without every entry that equals one of the tasks: the tasks are
/// removed one after the other, in their order.
pub fn remove_all_from_cache(content: &str, tasks: &Vec<String>) -> (r: String)
    ensures
        r@ == replayed(content@, strings(tasks@)),
{
    let ghost ts = strings(tasks@);
    let mut r = content.to_owned();
    let mut i: usize = 0;
    assert(ts.skip(0) =~= ts);
    while i < tasks.len()
        invariant
            i <= tasks@.len(),
            ts == strings(tasks@),
            replayed(content@, ts) == replayed(r@, ts.skip(i as int)),
        decreases tasks@.len() - i,
    {
        proof {
            assert(ts.skip(i as int).first() == tasks@[i as int]@);
            assert(ts.skip(i as int).drop_first() =~= ts.skip(i + 1));
        }
        r = remove_from_cache(r.as_str(), tasks[i].as_str());
        i += 1;
    }
    r
}

} // verus!
