//! What holds of a retry queue, whatever its text.

use crate::queue::{
    cut_at, entry_end, gap, join_pieces, kept_entries, lemma_gap, pieces, pieces_from,
    queue_entries, queue_without, remaining_pieces, replayed, separator, without,
};
use crate::text::{is_space, occurs_at, trim, trim_start};
use vstd::prelude::*;

verus! {

/// Whether no separator line starts anywhere in `r`.
pub open spec fn uncut(r: Seq<char>) -> bool {
    forall|j: int| !cut_at(r, j)
}

/// Whether `r` is empty or ends with a line break.
pub open spec fn ends_line(r: Seq<char>) -> bool {
    r.len() == 0 || r.last() == '\n'
}

/// Whether the last line of `c` is `---` without a line break behind it.
pub open spec fn open_end(c: Seq<char>) -> bool {
    c.len() >= 3 && c[c.len() - 3] == '-' && c[c.len() - 2] == '-' && c[c.len() - 1] == '-' && (
    c.len() == 3 || c[c.len() - 4] == '\n')
}

/// Whether `c` is empty or ends with a separator line.
pub open spec fn closed(c: Seq<char>) -> bool {
    c.len() == 0 || cut_at(c, c.len() - 4)
}

/// Every piece holds no separator line and ends its line.
spec fn lined(ps: Seq<Seq<char>>) -> bool {
    forall|i: int| 0 <= i < ps.len() ==> uncut(#[trigger] ps[i]) && ends_line(ps[i])
}

/// Every piece but the last is as `lined` says; the last holds no separator
/// line and does not end in an open one.
spec fn good(ps: Seq<Seq<char>>) -> bool {
    ps.len() > 0 ==> lined(ps.drop_last()) && uncut(ps.last()) && !open_end(ps.last())
}

/// What the pieces become when they are written with an entry end behind.
spec fn written(rs: Seq<Seq<char>>) -> Seq<Seq<char>> {
    rs.drop_last().push(rs.last() + seq!['\n']).push(Seq::empty())
}

proof fn lemma_sep_chars(s: Seq<char>, j: int)
    ensures
        occurs_at(s, separator(), j) <==> (0 <= j && j + 4 <= s.len() && s[j] == '-' && s[j + 1]
            == '-' && s[j + 2] == '-' && s[j + 3] == '\n'),
{
    let sep = separator();
    if 0 <= j && j + 4 <= s.len() {
        let sub = s.subrange(j, j + 4);
        if sub == sep {
            assert(sub[0] == sep[0] && sub[1] == sep[1] && sub[2] == sep[2] && sub[3] == sep[3]);
        }
        if s[j] == '-' && s[j + 1] == '-' && s[j + 2] == '-' && s[j + 3] == '\n' {
            assert(sub =~= sep);
        }
    }
}

proof fn lemma_gap_bound(s: Seq<char>, i: int)
    requires
        0 <= i <= s.len(),
    ensures
        i + gap(s, i) <= s.len(),
        i + gap(s, i) < s.len() ==> cut_at(s, i + gap(s, i)),
        forall|j: int| i <= j < i + gap(s, i) ==> !cut_at(s, j),
    decreases s.len() - i,
{
    if i < s.len() && !cut_at(s, i) {
        lemma_gap_bound(s, i + 1);
    }
}

proof fn lemma_cut_shift(s: Seq<char>, off: int, i: int)
    requires
        0 <= off <= s.len(),
        off == 0 || s[off - 1] == '\n',
        0 <= i,
    ensures
        cut_at(s, off + i) == cut_at(s.skip(off), i),
{
    let t = s.skip(off);
    lemma_sep_chars(s, off + i);
    lemma_sep_chars(t, i);
    if i + 4 <= t.len() {
        assert(t[i] == s[off + i] && t[i + 1] == s[off + i + 1] && t[i + 2] == s[off + i + 2]
            && t[i + 3] == s[off + i + 3]);
        if i > 0 {
            assert(t[i - 1] == s[off + i - 1]);
        }
    }
}

proof fn lemma_gap_shift(s: Seq<char>, off: int, i: int)
    requires
        0 <= off <= s.len(),
        off == 0 || s[off - 1] == '\n',
        0 <= i <= s.len() - off,
    ensures
        gap(s, off + i) == gap(s.skip(off), i),
    decreases s.len() - off - i,
{
    let t = s.skip(off);
    lemma_cut_shift(s, off, i);
    if i < t.len() && !cut_at(t, i) {
        lemma_gap_shift(s, off, i + 1);
    }
}

proof fn lemma_pieces_shift(s: Seq<char>, off: int, i: int)
    requires
        0 <= off <= s.len(),
        off == 0 || s[off - 1] == '\n',
        0 <= i <= s.len() - off,
    ensures
        pieces_from(s, off + i) == pieces_from(s.skip(off), i),
    decreases s.len() - off - i,
{
    let t = s.skip(off);
    lemma_gap_shift(s, off, i);
    lemma_gap_bound(t, i);
    let e = i + gap(t, i);
    assert(t.subrange(i, e) =~= s.subrange(off + i, off + e));
    if e < t.len() {
        lemma_sep_chars(t, e);
        lemma_pieces_shift(s, off, e + 4);
    } else {
        assert(t.subrange(i, t.len() as int) =~= s.subrange(off + i, s.len() as int));
    }
}

proof fn lemma_cut_prefix(c: Seq<char>, tail: Seq<char>, j: int)
    requires
        j + 4 <= c.len(),
    ensures
        cut_at(c + tail, j) == cut_at(c, j),
{
    let t = c + tail;
    lemma_sep_chars(t, j);
    lemma_sep_chars(c, j);
    if 0 <= j {
        assert(t[j] == c[j] && t[j + 1] == c[j + 1] && t[j + 2] == c[j + 2] && t[j + 3] == c[j
            + 3]);
        if j > 0 {
            assert(t[j - 1] == c[j - 1]);
        }
    }
}

/// A piece that ends its line, a separator line and a rest are cut into the
/// piece and the pieces of the rest.
proof fn lemma_compose(r: Seq<char>, rest: Seq<char>)
    requires
        uncut(r),
        ends_line(r),
    ensures
        pieces(r + separator() + rest) == Seq::empty().push(r) + pieces(rest),
{
    let t = r + separator() + rest;
    let n = r.len() as int;
    assert(t[n] == '-' && t[n + 1] == '-' && t[n + 2] == '-' && t[n + 3] == '\n');
    assert forall|j: int| 0 <= j < n implies !cut_at(t, j) by {
        lemma_sep_chars(t, j);
        lemma_sep_chars(r, j);
        assert(!cut_at(r, j));
        if j + 4 <= n {
            assert(t[j] == r[j] && t[j + 1] == r[j + 1] && t[j + 2] == r[j + 2] && t[j + 3]
                == r[j + 3]);
            if j > 0 {
                assert(t[j - 1] == r[j - 1]);
            }
        } else {
            assert(t[n - 1] == r[n - 1]);
            assert(r[n - 1] == '\n');
        }
    }
    lemma_sep_chars(t, n);
    if n > 0 {
        assert(t[n - 1] == r[n - 1]);
    }
    assert(cut_at(t, n));
    lemma_gap(t, 0, n);
    lemma_pieces_shift(t, n + 4, 0);
    assert(t.skip(n + 4) =~= rest);
    assert(t.subrange(0, n) =~= r);
}

proof fn lemma_uncut_with_break(r: Seq<char>)
    requires
        uncut(r),
        !open_end(r),
    ensures
        uncut(r + seq!['\n']),
{
    let rb = r + seq!['\n'];
    let n = r.len() as int;
    assert forall|j: int| !cut_at(rb, j) by {
        lemma_sep_chars(rb, j);
        lemma_sep_chars(r, j);
        assert(!cut_at(r, j));
        if 0 <= j && j + 4 <= n {
            assert(rb[j] == r[j] && rb[j + 1] == r[j + 1] && rb[j + 2] == r[j + 2] && rb[j + 3]
                == r[j + 3]);
            if j > 0 {
                assert(rb[j - 1] == r[j - 1]);
            }
        } else if 0 <= j && j + 4 == n + 1 {
            assert(rb[j] == r[j] && rb[j + 1] == r[j + 1] && rb[j + 2] == r[j + 2]);
            if j > 0 {
                assert(rb[j - 1] == r[j - 1]);
            }
        }
    }
}

/// What holds of the pieces of any text that does not end in an open
/// separator line.
proof fn lemma_pieces_good(s: Seq<char>, from: int)
    requires
        0 <= from <= s.len(),
        from == 0 || s[from - 1] == '\n',
        !open_end(s),
    ensures
        pieces_from(s, from).len() > 0,
        good(pieces_from(s, from)),
    decreases s.len() - from,
{
    lemma_gap_bound(s, from);
    let e = from + gap(s, from);
    let end = if e < s.len() {
        e
    } else {
        s.len() as int
    };
    let piece = s.subrange(from, end);
    assert forall|j: int| !cut_at(piece, j) by {
        lemma_sep_chars(piece, j);
        lemma_sep_chars(s, from + j);
        if 0 <= j && j + 4 <= piece.len() {
            assert(piece[j] == s[from + j] && piece[j + 1] == s[from + j + 1] && piece[j + 2]
                == s[from + j + 2] && piece[j + 3] == s[from + j + 3]);
            if j > 0 {
                assert(piece[j - 1] == s[from + j - 1]);
            }
            assert(!cut_at(s, from + j));
        }
    }
    let ps = pieces_from(s, from);
    if e < s.len() {
        lemma_sep_chars(s, e);
        lemma_pieces_good(s, e + 4);
        let rest = pieces_from(s, e + 4);
        assert(ps == Seq::empty().push(piece) + rest);
        if e > from {
            assert(piece.last() == s[e - 1]);
        }
        assert(ends_line(piece));
        assert(ps.last() == rest.last());
        assert forall|i: int| 0 <= i < ps.drop_last().len() implies uncut(
            #[trigger] ps.drop_last()[i],
        ) && ends_line(ps.drop_last()[i]) by {
            if i > 0 {
                assert(ps.drop_last()[i] == rest.drop_last()[i - 1]);
            } else {
                assert(ps.drop_last()[0] == piece);
            }
        }
    } else {
        assert(ps =~= Seq::empty().push(piece));
        assert(ps.drop_last() =~= Seq::<Seq<char>>::empty());
        if open_end(piece) {
            let m = piece.len() as int;
            assert(piece[m - 3] == s[s.len() - 3] && piece[m - 2] == s[s.len() - 2] && piece[m
                - 1] == s[s.len() - 1]);
            if m > 3 {
                assert(piece[m - 4] == s[s.len() - 4]);
            }
        }
    }
}

proof fn lemma_remaining_lined(ps: Seq<Seq<char>>, x: Seq<char>)
    requires
        lined(ps),
    ensures
        lined(remaining_pieces(ps, x)),
    decreases ps.len(),
{
    if ps.len() > 0 {
        let front = ps.drop_last();
        assert forall|i: int| 0 <= i < front.len() implies uncut(#[trigger] front[i])
            && ends_line(front[i]) by {
            assert(front[i] == ps[i]);
        }
        lemma_remaining_lined(front, x);
        let rs = remaining_pieces(ps, x);
        let before = remaining_pieces(front, x);
        assert(uncut(ps[ps.len() - 1]) && ends_line(ps[ps.len() - 1]));
        assert forall|i: int| 0 <= i < rs.len() implies uncut(#[trigger] rs[i]) && ends_line(
            rs[i],
        ) by {
            if i < before.len() {
                assert(rs[i] == before[i]);
            } else {
                assert(rs[i] == ps.last());
            }
        }
    }
}

proof fn lemma_remaining_good(ps: Seq<Seq<char>>, x: Seq<char>)
    requires
        good(ps),
    ensures
        good(remaining_pieces(ps, x)),
{
    if ps.len() > 0 {
        let front = ps.drop_last();
        lemma_remaining_lined(front, x);
        let rs = remaining_pieces(ps, x);
        let before = remaining_pieces(front, x);
        if rs.len() > 0 {
            if trim(ps.last()).len() > 0 && trim(ps.last()) != x {
                assert(rs.drop_last() =~= before);
            } else {
                assert(rs == before);
                assert(uncut(before[before.len() - 1]) && ends_line(before[before.len() - 1]));
                assert forall|i: int| 0 <= i < rs.drop_last().len() implies uncut(
                    #[trigger] rs.drop_last()[i],
                ) && ends_line(rs.drop_last()[i]) by {
                    assert(rs.drop_last()[i] == before[i]);
                }
            }
        }
    }
}

proof fn lemma_kept_remaining(ps: Seq<Seq<char>>, x: Seq<char>)
    ensures
        kept_entries(remaining_pieces(ps, x)) == without(kept_entries(ps), x),
        kept_entries(remaining_pieces(ps, x)).len() == remaining_pieces(ps, x).len(),
    decreases ps.len(),
{
    if ps.len() > 0 {
        let front = ps.drop_last();
        lemma_kept_remaining(front, x);
        if trim(ps.last()).len() > 0 {
            assert(kept_entries(ps).drop_last() =~= kept_entries(front));
            if trim(ps.last()) != x {
                assert(remaining_pieces(ps, x).drop_last() =~= remaining_pieces(front, x));
            }
        }
    }
}

proof fn lemma_join_front(rs: Seq<Seq<char>>)
    requires
        rs.len() >= 2,
    ensures
        join_pieces(rs) == rs[0] + separator() + join_pieces(rs.drop_first()),
    decreases rs.len(),
{
    if rs.len() == 2 {
        assert(rs.drop_last().len() == 1 && rs.drop_first().len() == 1);
        assert(join_pieces(rs.drop_last()) == rs.drop_last()[0]);
        assert(join_pieces(rs.drop_first()) == rs.drop_first()[0]);
        assert(rs.drop_first()[0] == rs.last());
        assert(join_pieces(rs) =~= rs[0] + separator() + join_pieces(rs.drop_first()));
    } else {
        lemma_join_front(rs.drop_last());
        assert(rs.drop_first().drop_last() =~= rs.drop_last().drop_first());
        assert(rs.drop_first().last() == rs.last());
        assert(join_pieces(rs) =~= rs[0] + separator() + join_pieces(rs.drop_first()));
    }
}

proof fn lemma_pieces_of_empty()
    ensures
        pieces(Seq::<char>::empty()) == Seq::<Seq<char>>::empty().push(Seq::<char>::empty()),
{
    let s = Seq::<char>::empty();
    assert(s.subrange(0, 0) =~= s);
    assert(pieces(s) =~= Seq::<Seq<char>>::empty().push(s));
}

/// The pieces of what a removal writes are the pieces that it kept, the
/// last with a line break behind it, and an empty piece.
proof fn lemma_written(rs: Seq<Seq<char>>)
    requires
        rs.len() > 0,
        good(rs),
    ensures
        pieces(join_pieces(rs) + entry_end()) == written(rs),
    decreases rs.len(),
{
    assert(seq!['\n'] + separator() =~= entry_end());
    if rs.len() == 1 {
        let r = rs[0];
        lemma_uncut_with_break(r);
        lemma_compose(r + seq!['\n'], Seq::empty());
        lemma_pieces_of_empty();
        assert(join_pieces(rs) + entry_end() =~= (r + seq!['\n']) + separator() + Seq::<
            char,
        >::empty());
        assert(written(rs) =~= Seq::empty().push(r + seq!['\n']) + pieces(Seq::<char>::empty()));
    } else {
        let rest = rs.drop_first();
        lemma_join_front(rs);
        assert(rs.drop_last()[0] == rs[0]);
        assert(uncut(rs[0]) && ends_line(rs[0]));
        assert(rest.drop_last() =~= rs.drop_last().drop_first());
        assert forall|i: int| 0 <= i < rest.drop_last().len() implies uncut(
            #[trigger] rest.drop_last()[i],
        ) && ends_line(rest.drop_last()[i]) by {
            assert(rest.drop_last()[i] == rs.drop_last()[i + 1]);
        }
        assert(rest.last() == rs.last());
        lemma_written(rest);
        let tail = join_pieces(rest) + entry_end();
        lemma_compose(rs[0], tail);
        assert(join_pieces(rs) + entry_end() =~= rs[0] + separator() + tail);
        assert(written(rs) =~= Seq::empty().push(rs[0]) + written(rest));
    }
}

proof fn lemma_trim_start_break(s: Seq<char>)
    ensures
        trim_start(s + seq!['\n']) == if trim_start(s).len() == 0 {
            Seq::<char>::empty()
        } else {
            trim_start(s) + seq!['\n']
        },
    decreases s.len(),
{
    let sb = s + seq!['\n'];
    assert(is_space('\n'));
    if s.len() == 0 {
        assert(sb[0] == '\n');
        assert(sb.drop_first() =~= Seq::<char>::empty());
        assert(trim_start(Seq::<char>::empty()) =~= Seq::<char>::empty());
        assert(trim_start(sb) == trim_start(sb.drop_first()));
    } else {
        assert(sb[0] == s[0]);
        if is_space(s[0]) {
            lemma_trim_start_break(s.drop_first());
            assert(sb.drop_first() =~= s.drop_first() + seq!['\n']);
        }
    }
}

/// A line break behind a text does not change its trimmed form.
proof fn lemma_trim_break(s: Seq<char>)
    ensures
        trim(s + seq!['\n']) == trim(s),
{
    lemma_trim_start_break(s);
    assert(is_space('\n'));
    let a = trim_start(s);
    if a.len() > 0 {
        assert((a + seq!['\n']).drop_last() =~= a);
        assert((a + seq!['\n']).last() == '\n');
    }
}

proof fn lemma_kept_written(rs: Seq<Seq<char>>)
    requires
        rs.len() > 0,
    ensures
        kept_entries(written(rs)) == kept_entries(rs),
{
    let mid = rs.drop_last().push(rs.last() + seq!['\n']);
    lemma_trim_break(rs.last());
    assert(written(rs).drop_last() =~= mid);
    assert(trim(Seq::<char>::empty()) =~= Seq::<char>::empty());
    assert(written(rs).last() == Seq::<char>::empty());
    assert(kept_entries(written(rs)) == kept_entries(mid));
    assert(mid.drop_last() =~= rs.drop_last());
    assert(mid.last() == rs.last() + seq!['\n']);
}

/// What a removal leaves, for any log that does not end in an open
/// separator line.
proof fn lemma_remove(c: Seq<char>, x: Seq<char>)
    requires
        !open_end(c),
    ensures
        queue_entries(queue_without(c, x)) == without(queue_entries(c), x),
        queue_entries(queue_without(c, x)).len() == 0 ==> queue_without(c, x).len() == 0,
        !open_end(queue_without(c, x)),
{
    let ps = pieces(c);
    lemma_pieces_good(c, 0);
    lemma_remaining_good(ps, x);
    lemma_kept_remaining(ps, x);
    let rs = remaining_pieces(ps, x);
    if rs.len() == 0 {
        lemma_pieces_of_empty();
        let one = Seq::<Seq<char>>::empty().push(Seq::<char>::empty());
        assert(one.drop_last() =~= Seq::<Seq<char>>::empty());
        assert(trim(Seq::<char>::empty()) =~= Seq::<char>::empty());
        assert(kept_entries(one.drop_last()) =~= Seq::<Seq<char>>::empty());
        assert(one.last() == Seq::<char>::empty());
        assert(kept_entries(one) =~= Seq::<Seq<char>>::empty());
    } else {
        lemma_written(rs);
        lemma_kept_written(rs);
        let text = join_pieces(rs) + entry_end();
        assert(text[text.len() - 1] == '\n');
    }
}

proof fn lemma_without(es: Seq<Seq<char>>, x: Seq<char>)
    ensures
        forall|i: int|
            0 <= i < without(es, x).len() ==> (#[trigger] without(es, x)[i]) != x && es.contains(
                without(es, x)[i],
            ),
    decreases es.len(),
{
    if es.len() > 0 {
        let front = es.drop_last();
        lemma_without(front, x);
        let w = without(es, x);
        let before = without(front, x);
        assert forall|i: int| 0 <= i < w.len() implies (#[trigger] w[i]) != x && es.contains(
            w[i],
        ) by {
            if i < before.len() {
                assert(w[i] == before[i]);
                assert(front.contains(before[i]));
                let k = choose|k: int| 0 <= k < front.len() && front[k] == before[i];
                assert(es[k] == w[i]);
            } else {
                assert(w[i] == es.last());
                assert(es[es.len() - 1] == w[i]);
            }
        }
    }
}

proof fn lemma_replayed(c: Seq<char>, tasks: Seq<Seq<char>>)
    requires
        !open_end(c),
    ensures
        forall|i: int|
            0 <= i < queue_entries(replayed(c, tasks)).len() ==> queue_entries(c).contains(
                #[trigger] queue_entries(replayed(c, tasks))[i],
            ) && !tasks.contains(queue_entries(replayed(c, tasks))[i]),
        tasks.len() > 0 && queue_entries(replayed(c, tasks)).len() == 0 ==> replayed(
            c,
            tasks,
        ).len() == 0,
    decreases tasks.len(),
{
    let out = queue_entries(replayed(c, tasks));
    if tasks.len() == 0 {
        assert forall|i: int| 0 <= i < out.len() implies queue_entries(c).contains(
            #[trigger] out[i],
        ) && !tasks.contains(out[i]) by {
            assert(queue_entries(c)[i] == out[i]);
        }
    } else {
        let t = tasks.first();
        let next = queue_without(c, t);
        lemma_remove(c, t);
        lemma_replayed(next, tasks.drop_first());
        lemma_without(queue_entries(c), t);
        assert(replayed(c, tasks) == replayed(next, tasks.drop_first()));
        assert forall|i: int| 0 <= i < out.len() implies queue_entries(c).contains(
            #[trigger] out[i],
        ) && !tasks.contains(out[i]) by {
            let e = out[i];
            assert(queue_entries(next).contains(e));
            let k = choose|k: int| 0 <= k < queue_entries(next).len() && queue_entries(next)[k]
                == e;
            assert(without(queue_entries(c), t)[k] == e);
            assert(e != t);
            if tasks.contains(e) {
                let m = choose|m: int| 0 <= m < tasks.len() && tasks[m] == e;
                assert(tasks.drop_first()[m - 1] == e);
            }
        }
    }
}

proof fn lemma_closed_walk(c: Seq<char>, x: Seq<char>, from: int)
    requires
        closed(c),
        uncut(x + seq!['\n']),
        0 <= from <= c.len(),
        from == 0 || c[from - 1] == '\n',
        from == c.len() || from + 4 <= c.len(),
    ensures
        pieces_from(c, from).len() > 0,
        pieces_from(c, from).last() == Seq::<char>::empty(),
        pieces_from(c + x + entry_end(), from) == pieces_from(c, from).drop_last().push(
            x + seq!['\n'],
        ).push(Seq::empty()),
    decreases c.len() - from,
{
    let t = c + x + entry_end();
    let n = c.len() as int;
    let xb = x + seq!['\n'];
    assert(seq!['\n'] + separator() =~= entry_end());
    if from == n {
        assert(c.subrange(n, n) =~= Seq::<char>::empty());
        assert(pieces_from(c, n) =~= Seq::<Seq<char>>::empty().push(Seq::<char>::empty()));
        if n > 0 {
            assert(t[n - 1] == c[n - 1]);
        }
        lemma_pieces_shift(t, n, 0);
        assert(t.skip(n) =~= xb + separator() + Seq::<char>::empty());
        lemma_compose(xb, Seq::empty());
        lemma_pieces_of_empty();
        assert(pieces_from(t, n) =~= pieces_from(c, n).drop_last().push(xb).push(Seq::empty()));
    } else {
        let last = n - 4;
        lemma_gap_bound(c, from);
        let e = from + gap(c, from);
        assert(e <= last) by {
            if e > last {
                assert(!cut_at(c, last));
            }
        }
        lemma_sep_chars(c, e);
        lemma_sep_chars(c, last);
        assert(e == last || e + 4 <= last);
        assert(c + (x + entry_end()) =~= t);
        assert forall|j: int| from <= j < e implies !cut_at(t, j) by {
            lemma_cut_prefix(c, x + entry_end(), j);
        }
        lemma_cut_prefix(c, x + entry_end(), e);
        lemma_gap(t, from, e);
        lemma_closed_walk(c, x, e + 4);
        assert(t.subrange(from, e) =~= c.subrange(from, e));
        let p = c.subrange(from, e);
        let rest = pieces_from(c, e + 4);
        assert(pieces_from(c, from) == Seq::empty().push(p) + rest);
        assert(pieces_from(t, from) == Seq::empty().push(p) + pieces_from(t, e + 4));
        assert(pieces_from(t, from) =~= pieces_from(c, from).drop_last().push(xb).push(
            Seq::empty(),
        ));
    }
}

/// An input that was enqueued is the last entry of the queue, in its
/// trimmed form; one that holds whitespace only adds no entry. This holds
/// of a log that is empty or ends with a separator line, and of an input
/// that holds no separator line, nor ends in a line `---`.
pub proof fn law_enqueued_is_drained(c: Seq<char>, x: Seq<char>)
    requires
        closed(c),
        uncut(x + seq!['\n']),
    ensures
        queue_entries(c + x + entry_end()) == if trim(x).len() > 0 {
            queue_entries(c).push(trim(x))
        } else {
            queue_entries(c)
        },
        trim(x).len() > 0 ==> queue_entries(c + x + entry_end()).contains(trim(x)),
{
    lemma_sep_chars(c, c.len() - 4);
    lemma_closed_walk(c, x, 0);
    lemma_trim_break(x);
    let ps = pieces(c);
    let mid = ps.drop_last().push(x + seq!['\n']);
    let after = mid.push(Seq::empty());
    assert(trim(Seq::<char>::empty()) =~= Seq::<char>::empty());
    assert(after.drop_last() =~= mid);
    assert(after.last() == Seq::<char>::empty());
    assert(kept_entries(after) == kept_entries(mid));
    assert(mid.drop_last() =~= ps.drop_last());
    assert(mid.last() == x + seq!['\n']);
    assert(kept_entries(ps) == kept_entries(ps.drop_last()));
    assert(pieces(c + x + entry_end()) == after);
    if trim(x).len() > 0 {
        let es = queue_entries(c + x + entry_end());
        assert(es[es.len() - 1] == trim(x));
    }
}

/// A task that was removed from the queue is no entry of it any more,
/// however often it stood there; the other entries stay, in their order.
/// This holds of every log that does not end in a line `---` without a line
/// break behind it.
pub proof fn law_removed_is_gone(c: Seq<char>, x: Seq<char>)
    requires
        !open_end(c),
    ensures
        queue_entries(queue_without(c, x)) == without(queue_entries(c), x),
        !queue_entries(queue_without(c, x)).contains(x),
{
    lemma_remove(c, x);
    lemma_without(queue_entries(c), x);
    let out = queue_entries(queue_without(c, x));
    if out.contains(x) {
        let k = choose|k: int| 0 <= k < out.len() && out[k] == x;
        assert(without(queue_entries(c), x)[k] != x);
    }
}

/// Where every entry of the queue is replayed and removed, in whatever
/// order the entries stand, no entry is left, and the log is empty if it
/// held an entry at all.
pub proof fn law_replay_empties_queue(c: Seq<char>)
    requires
        !open_end(c),
    ensures
        queue_entries(replayed(c, queue_entries(c))).len() == 0,
        queue_entries(c).len() > 0 ==> replayed(c, queue_entries(c)).len() == 0,
{
    lemma_replayed(c, queue_entries(c));
    let out = queue_entries(replayed(c, queue_entries(c)));
    if out.len() > 0 {
        assert(queue_entries(c).contains(out[0]));
        assert(!queue_entries(c).contains(out[0]));
    }
}

} // verus!
