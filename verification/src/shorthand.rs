//! The shorthand in which a task is written on one line: title words, a list
//! marker `@`, label markers `.`, a duration marker `:` and a notes part.

use crate::number::{decimal_i32, parse_decimal};
use crate::text::{
    char_is_space, find, index_of, is_space, opt_string, strings, substring, to_chars, trim,
    trim_range,
};
use vstd::prelude::*;
use vstd::string::*;

verus! {

/// A task as it is sent to the remote service.
#[derive(Debug)]
pub struct TaskRequest {
    pub title: String,
    pub list_id: Option<String>,
    pub duration_minutes: Option<i32>,
    pub label_ids: Vec<String>,
    pub notes: String,
}

/// The text that parts the main part of an input from its notes.
pub open spec fn notes_separator() -> Seq<char> {
    seq![' ', 'n', ':']
}

/// How many characters from index `i` on are no whitespace, up to the first
/// that is.
pub open spec fn run_len(s: Seq<char>, i: int) -> nat
    decreases s.len() - i,
{
    if i < 0 || i >= s.len() || is_space(s[i]) {
        0
    } else {
        1 + run_len(s, i + 1)
    }
}

/// The whitespace-delimited words of `s` that start at or after index `i`.
pub open spec fn words_from(s: Seq<char>, i: int) -> Seq<Seq<char>>
    decreases
            if i <= s.len() {
                s.len() - i
            } else {
                0
            },
{
    if i < 0 || i >= s.len() {
        Seq::empty()
    } else if is_space(s[i]) {
        words_from(s, i + 1)
    } else {
        let n = run_len(s, i + 1);
        Seq::empty().push(s.subrange(i, i + 1 + n)) + words_from(s, i + 1 + n)
    }
}

/// The whitespace-delimited words of `s`, in order.
pub open spec fn split_words(s: Seq<char>) -> Seq<Seq<char>> {
    words_from(s, 0)
}

/// Whether a word starts with the label marker.
pub open spec fn is_label_marker(w: Seq<char>) -> bool {
    w.len() > 0 && w[0] == '.'
}

/// Whether a word starts with the list marker.
pub open spec fn is_list_marker(w: Seq<char>) -> bool {
    w.len() > 0 && w[0] == '@'
}

/// Whether a word starts with the duration marker.
pub open spec fn is_duration_marker(w: Seq<char>) -> bool {
    w.len() > 0 && w[0] == ':'
}

/// The duration that a word states: a duration marker whose rest, behind
/// the one marker character, is an integer.
pub open spec fn duration_in(w: Seq<char>) -> Option<i32> {
    if is_duration_marker(w) {
        decimal_i32(w.skip(1))
    } else {
        None
    }
}

/// Whether a word belongs to the title: it is no label or list marker, and
/// no duration marker that states a duration.
pub open spec fn is_title_word(w: Seq<char>) -> bool {
    !is_label_marker(w) && !is_list_marker(w) && duration_in(w) is None
}

/// The words of `ws` that belong to the title, in order.
pub open spec fn title_words(ws: Seq<Seq<char>>) -> Seq<Seq<char>>
    decreases ws.len(),
{
    if ws.len() == 0 {
        Seq::empty()
    } else if is_title_word(ws.last()) {
        title_words(ws.drop_last()).push(ws.last())
    } else {
        title_words(ws.drop_last())
    }
}

/// The names of the label markers in `ws` that have a name, in order. A
/// name is what follows the one marker character.
pub open spec fn labels_of(ws: Seq<Seq<char>>) -> Seq<Seq<char>>
    decreases ws.len(),
{
    if ws.len() == 0 {
        Seq::empty()
    } else if is_label_marker(ws.last()) && ws.last().len() > 1 {
        labels_of(ws.drop_last()).push(ws.last().skip(1))
    } else {
        labels_of(ws.drop_last())
    }
}

/// The name of the last list marker in `ws` that has a name.
pub open spec fn list_of(ws: Seq<Seq<char>>) -> Option<Seq<char>>
    decreases ws.len(),
{
    if ws.len() == 0 {
        None
    } else if is_list_marker(ws.last()) && ws.last().len() > 1 {
        Some(ws.last().skip(1))
    } else {
        list_of(ws.drop_last())
    }
}

/// The duration that the last duration marker in `ws` states.
pub open spec fn duration_of(ws: Seq<Seq<char>>) -> Option<i32>
    decreases ws.len(),
{
    if ws.len() == 0 {
        None
    } else if duration_in(ws.last()) is Some {
        duration_in(ws.last())
    } else {
        duration_of(ws.drop_last())
    }
}

/// The words of `ws` with one space between each two.
pub open spec fn join_words(ws: Seq<Seq<char>>) -> Seq<char>
    decreases ws.len(),
{
    if ws.len() == 0 {
        Seq::empty()
    } else if ws.len() == 1 {
        ws[0]
    } else {
        join_words(ws.drop_last()) + seq![' '] + ws.last()
    }
}

/// How many words of `ws` are list markers, named or not.
pub open spec fn list_marker_count(ws: Seq<Seq<char>>) -> nat
    decreases ws.len(),
{
    if ws.len() == 0 {
        0
    } else if is_list_marker(ws.last()) {
        list_marker_count(ws.drop_last()) + 1
    } else {
        list_marker_count(ws.drop_last())
    }
}

/// The part of an input before its first notes separator: all of it where
/// there is none.
pub open spec fn main_part(s: Seq<char>) -> Seq<char> {
    match index_of(s, notes_separator()) {
        Some(i) => s.take(i),
        None => s,
    }
}

/// The notes of an input: what follows its first notes separator, without
/// whitespace at both ends.
pub open spec fn notes_of(s: Seq<char>) -> Seq<char> {
    match index_of(s, notes_separator()) {
        Some(i) => trim(s.skip(i + 3)),
        None => Seq::empty(),
    }
}

/// The words of the main part of an input.
pub open spec fn main_words(s: Seq<char>) -> Seq<Seq<char>> {
    split_words(main_part(s))
}

/// The title of an input.
pub open spec fn title_of(s: Seq<char>) -> Seq<char> {
    join_words(title_words(main_words(s)))
}

/// The words of `s`, each as a string of its own.
pub fn split_whitespace(s: &str) -> (r: Vec<String>)
    ensures
        strings(r@) == split_words(s@),
{
    let v = to_chars(s);
    let mut r: Vec<String> = Vec::new();
    let mut i: usize = 0;
    while i < v.len()
        invariant
            v@ == s@,
            i <= v@.len(),
            split_words(v@) == strings(r@) + words_from(v@, i as int),
        decreases v@.len() - i,
    {
        if char_is_space(v[i]) {
            i += 1;
        } else {
            let mut e: usize = i + 1;
            while e < v.len() && !char_is_space(v[e])
                invariant
                    i < e <= v@.len(),
                    run_len(v@, i + 1) == (e - (i + 1)) + run_len(v@, e as int),
                decreases v@.len() - e,
            {
                e += 1;
            }
            let word = substring(s, i, e);
            proof {
                assert(run_len(v@, e as int) == 0);
                assert(words_from(v@, i as int) == Seq::empty().push(
                    v@.subrange(i as int, e as int),
                ) + words_from(v@, e as int));
                assert(strings(r@.push(word)) =~= strings(r@).push(word@));
                assert(strings(r@).push(word@) + words_from(v@, e as int) =~= strings(r@) + (
                Seq::empty().push(word@) + words_from(v@, e as int)));
            }
            r.push(word);
            i = e;
        }
    }
    assert(strings(r@) + words_from(v@, i as int) =~= strings(r@));
    r
}

/// How many words of `input` start with the list marker.
pub fn count_list_markers(input: &str) -> (n: usize)
    ensures
        n == list_marker_count(split_words(input@)),
{
    let words = split_whitespace(input);
    let ghost ws = split_words(input@);
    let mut n: usize = 0;
    let mut i: usize = 0;
    while i < words.len()
        invariant
            strings(words@) == ws,
            i <= words@.len(),
            n == list_marker_count(ws.take(i as int)),
            n <= i,
        decreases words@.len() - i,
    {
        let w = words[i].as_str();
        proof {
            assert(ws.take(i + 1).drop_last() =~= ws.take(i as int));
            assert(ws.take(i + 1).last() == w@);
        }
        if w.unicode_len() > 0 && w.get_char(0) == '@' {
            n += 1;
        }
        i += 1;
    }
    assert(ws.take(i as int) =~= ws);
    n
}

/// Adds a word to a title, after a space where the title has a word already.
fn push_title_word(title: &mut String, have_title: bool, word: &str)
    ensures
        final(title)@ == if have_title {
            old(title)@ + seq![' '] + word@
        } else {
            old(title)@ + word@
        },
{
    if have_title {
        proof {
            reveal_strlit(" ");
        }
        assert(" "@ =~= seq![' ']);
        title.append(" ");
    }
    title.append(word);
}

/// Reads one line of shorthand. The result is the task with its title,
/// duration and notes, no list and no labels yet; the name of the list it
/// asks for; and the names of its labels.
pub fn parse_task(input: &str) -> (r: (TaskRequest, Option<String>, Vec<String>))
    ensures
        r.0.title@ == title_of(input@),
        r.0.list_id is None,
        r.0.duration_minutes == duration_of(main_words(input@)),
        r.0.label_ids@.len() == 0,
        r.0.notes@ == notes_of(input@),
        opt_string(r.1) == list_of(main_words(input@)),
        strings(r.2@) == labels_of(main_words(input@)),
{
    let chars = to_chars(input);
    let sep: Vec<char> = vec![' ', 'n', ':'];
    assert(sep@ =~= notes_separator());
    let (main_end, notes) = match find(&chars, &sep) {
        Some(pos) => {
            assert(notes_separator().len() == 3);
            assert(pos + 3 <= chars@.len() && chars@.len() == chars.len());
            let (a, b) = trim_range(&chars, pos + 3, chars.len());
            assert(chars@.subrange(pos + 3, chars@.len() as int) =~= chars@.skip(pos + 3));
            (pos, substring(input, a, b))
        },
        None => (chars.len(), String::new()),
    };
    let main = input.substring_char(0, main_end);
    assert(main@ =~= main_part(input@));
    let words = split_whitespace(main);
    let ghost ws = main_words(input@);

    let mut title = String::new();
    let mut have_title = false;
    let mut list_name: Option<String> = None;
    let mut duration: Option<i32> = None;
    let mut labels: Vec<String> = Vec::new();
    let mut i: usize = 0;
    while i < words.len()
        invariant
            strings(words@) == ws,
            i <= words@.len(),
            title@ == join_words(title_words(ws.take(i as int))),
            have_title == (title_words(ws.take(i as int)).len() > 0),
            opt_string(list_name) == list_of(ws.take(i as int)),
            duration == duration_of(ws.take(i as int)),
            strings(labels@) == labels_of(ws.take(i as int)),
        decreases words@.len() - i,
    {
        let word = words[i].as_str();
        let wc = to_chars(word);
        let n = wc.len();
        let ghost before = ws.take(i as int);
        let ghost tw = title_words(before);
        proof {
            assert(ws.take(i + 1).drop_last() =~= before);
            assert(ws.take(i + 1).last() == wc@);
            if n > 0 {
                assert(wc@.subrange(1, n as int) =~= wc@.skip(1));
            }
            assert(tw.push(wc@).drop_last() =~= tw);
        }
        if n > 0 && wc[0] == '.' {
            if 1 < n {
                let name = substring(word, 1, n);
                assert(strings(labels@.push(name)) =~= strings(labels@).push(name@));
                labels.push(name);
            }
        } else if n > 0 && wc[0] == '@' {
            if 1 < n {
                list_name = Some(substring(word, 1, n));
            }
        } else if n > 0 && wc[0] == ':' {
            match parse_decimal(&wc, 1, n) {
                Some(d) => {
                    duration = Some(d);
                },
                None => {
                    push_title_word(&mut title, have_title, word);
                    have_title = true;
                },
            }
        } else {
            push_title_word(&mut title, have_title, word);
            have_title = true;
        }
        i += 1;
    }
    assert(ws.take(i as int) =~= ws);
    (
        TaskRequest { title, list_id: None, duration_minutes: duration, label_ids: Vec::new(), notes },
        list_name,
        labels,
    )
}

/// Whether `w` can be a word: it is not empty and holds no whitespace.
pub open spec fn is_word(w: Seq<char>) -> bool {
    w.len() > 0 && forall|j: int| 0 <= j < w.len() ==> !is_space(#[trigger] w[j])
}

proof fn lemma_run(s: Seq<char>, i: int)
    requires
        0 <= i <= s.len(),
    ensures
        i + run_len(s, i) <= s.len(),
        forall|k: int| i <= k < i + run_len(s, i) ==> !is_space(#[trigger] s[k]),
    decreases s.len() - i,
{
    if i < s.len() && !is_space(s[i]) {
        lemma_run(s, i + 1);
    }
}

proof fn lemma_run_of_word(w: Seq<char>, i: int)
    requires
        forall|j: int| 0 <= j < w.len() ==> !is_space(#[trigger] w[j]),
        0 <= i <= w.len(),
    ensures
        run_len(w, i) == w.len() - i,
    decreases w.len() - i,
{
    if i < w.len() {
        lemma_run_of_word(w, i + 1);
    }
}

proof fn lemma_run_before_space(a: Seq<char>, w: Seq<char>, i: int)
    requires
        0 <= i <= a.len(),
    ensures
        run_len(a + seq![' '] + w, i) == run_len(a, i),
    decreases a.len() - i,
{
    let t = a + seq![' '] + w;
    if i < a.len() {
        assert(t[i] == a[i]);
        if !is_space(a[i]) {
            lemma_run_before_space(a, w, i + 1);
        }
    } else {
        assert(t[i] == ' ');
    }
}

proof fn lemma_words_are_words(s: Seq<char>, i: int)
    requires
        0 <= i <= s.len(),
    ensures
        forall|k: int| 0 <= k < words_from(s, i).len() ==> is_word(#[trigger] words_from(s, i)[k]),
    decreases s.len() - i,
{
    if i < s.len() {
        if is_space(s[i]) {
            lemma_words_are_words(s, i + 1);
            assert(words_from(s, i) == words_from(s, i + 1));
        } else {
            lemma_run(s, i + 1);
            let e = i + 1 + run_len(s, i + 1);
            lemma_words_are_words(s, e);
            let w = s.subrange(i, e);
            assert(is_word(w)) by {
                assert forall|j: int| 0 <= j < w.len() implies !is_space(#[trigger] w[j]) by {
                    assert(w[j] == s[i + j]);
                }
            }
            let all = words_from(s, i);
            let rest = words_from(s, e);
            assert(all == Seq::empty().push(w) + rest);
            assert forall|k: int| 0 <= k < all.len() implies is_word(#[trigger] all[k]) by {
                if k == 0 {
                    assert(all[0] == w);
                } else {
                    assert(all[k] == rest[k - 1]);
                }
            }
        }
    } else {
        assert(words_from(s, i) =~= Seq::<Seq<char>>::empty());
    }
}

proof fn lemma_words_with_one_more(a: Seq<char>, w: Seq<char>, i: int)
    requires
        is_word(w),
        0 <= i <= a.len(),
    ensures
        words_from(a + seq![' '] + w, i) == words_from(a, i).push(w),
    decreases a.len() - i,
{
    let t = a + seq![' '] + w;
    if i < a.len() {
        assert(t[i] == a[i]);
        if is_space(a[i]) {
            lemma_words_with_one_more(a, w, i + 1);
        } else {
            lemma_run(a, i + 1);
            lemma_run_before_space(a, w, i + 1);
            let e = i + 1 + run_len(a, i + 1);
            lemma_words_with_one_more(a, w, e);
            assert(t.subrange(i, e) =~= a.subrange(i, e));
            assert(Seq::empty().push(a.subrange(i, e)) + words_from(a, e).push(w) =~= (
            Seq::empty().push(a.subrange(i, e)) + words_from(a, e)).push(w));
        }
    } else {
        let n = a.len() as int;
        assert(t[n] == ' ');
        assert(t[n + 1] == w[0]);
        assert(words_from(t, n) == words_from(t, n + 1));
        assert(run_len(t, n + 2) == w.len() - 1) by {
            assert(t.skip(n + 1) =~= w);
            lemma_run_shifted(t, w, n + 1, 1);
            lemma_run_of_word(w, 1);
        }
        assert(t.subrange(n + 1, n + 1 + w.len()) =~= w);
        assert(words_from(t, t.len() as int) =~= Seq::<Seq<char>>::empty());
        assert(words_from(a, n) =~= Seq::<Seq<char>>::empty());
        assert(words_from(t, n + 1) =~= Seq::<Seq<char>>::empty().push(w));
    }
}

proof fn lemma_run_shifted(t: Seq<char>, w: Seq<char>, off: int, i: int)
    requires
        0 <= off,
        t.skip(off) == w,
        off <= t.len(),
        0 <= i <= w.len(),
    ensures
        run_len(t, off + i) == run_len(w, i),
    decreases w.len() - i,
{
    if i < w.len() {
        assert(w[i] == t[off + i]);
        lemma_run_shifted(t, w, off, i + 1);
    }
}

proof fn lemma_split_of_join(ws: Seq<Seq<char>>)
    requires
        forall|k: int| 0 <= k < ws.len() ==> is_word(#[trigger] ws[k]),
    ensures
        split_words(join_words(ws)) == ws,
    decreases ws.len(),
{
    if ws.len() == 0 {
        assert(split_words(join_words(ws)) =~= ws);
    } else if ws.len() == 1 {
        let w = ws[0];
        assert(is_word(w));
        lemma_run_of_word(w, 1);
        assert(w.subrange(0, w.len() as int) =~= w);
        assert(words_from(w, w.len() as int) =~= Seq::<Seq<char>>::empty());
        assert(split_words(w) =~= ws);
    } else {
        let front = ws.drop_last();
        assert forall|k: int| 0 <= k < front.len() implies is_word(#[trigger] front[k]) by {
            assert(front[k] == ws[k]);
        }
        lemma_split_of_join(front);
        assert(is_word(ws.last()));
        lemma_words_with_one_more(join_words(front), ws.last(), 0);
        assert(front.push(ws.last()) =~= ws);
    }
}

proof fn lemma_title_words(ws: Seq<Seq<char>>)
    requires
        forall|k: int| 0 <= k < ws.len() ==> is_word(#[trigger] ws[k]),
    ensures
        forall|k: int|
            0 <= k < title_words(ws).len() ==> is_word(#[trigger] title_words(ws)[k])
                && is_title_word(title_words(ws)[k]),
    decreases ws.len(),
{
    if ws.len() > 0 {
        let front = ws.drop_last();
        assert forall|k: int| 0 <= k < front.len() implies is_word(#[trigger] front[k]) by {
            assert(front[k] == ws[k]);
        }
        lemma_title_words(front);
        assert(is_word(ws.last()));
        let tw = title_words(ws);
        let before = title_words(front);
        assert forall|k: int| 0 <= k < tw.len() implies is_word(#[trigger] tw[k]) && is_title_word(
            tw[k],
        ) by {
            if k < before.len() {
                assert(tw[k] == before[k]);
            } else {
                assert(tw[k] == ws.last());
            }
        }
    }
}

/// The words of a title are words of the main part, in their order, and
/// none of them is a label marker, a list marker or a duration marker that
/// states a duration.
pub proof fn law_title_holds_no_marker(input: Seq<char>)
    ensures
        split_words(title_of(input)) == title_words(main_words(input)),
        forall|k: int|
            0 <= k < split_words(title_of(input)).len() ==> is_title_word(
                #[trigger] split_words(title_of(input))[k],
            ),
{
    lemma_words_are_words(main_part(input), 0);
    lemma_title_words(main_words(input));
    lemma_split_of_join(title_words(main_words(input)));
}

} // verus!
