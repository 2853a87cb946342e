//! Difficulty rating: note density over sliding windows of script lines.

use vstd::prelude::*;
use vstd::relations::{sorted_by, total_ordering};

use crate::layout::{split_lines, BeatsLayout};
use crate::text::{chars_of, trim, trim_chars};

verus! {

broadcast use vstd::seq_lib::group_to_multiset_ensures;

/// Density units per note per nanosecond: densities are in millionths of a note per
/// second.
pub const DENSITY_SCALE: u128 = 1_000_000_000_000_000;

/// Largest density of a window; also that of a window with notes and no duration.
pub const DENSITY_CAP: u128 = 100_000_000_000_000_000;

/// The pieces of `t` between occurrences of `sep`.
pub open spec fn split_on(t: Seq<char>, sep: char) -> Seq<Seq<char>>
    decreases t.len(),
{
    if t.len() == 0 {
        seq![seq![]]
    } else {
        let s = split_on(t.drop_last(), sep);
        if t.last() == sep {
            s.push(seq![])
        } else {
            s.update(s.len() - 1, s.last().push(t.last()))
        }
    }
}

proof fn lemma_split_on_len(t: Seq<char>, sep: char)
    ensures
        split_on(t, sep).len() >= 1,
    decreases t.len(),
{
    if t.len() > 0 {
        lemma_split_on_len(t.drop_last(), sep);
    }
}

/// A token counts as a note unless it is empty or a lone `-` once trimmed.
pub open spec fn is_note_token(tok: Seq<char>) -> bool {
    trim(tok).len() > 0 && trim(tok) != seq!['-']
}

pub open spec fn count_notes(toks: Seq<Seq<char>>) -> nat
    decreases toks.len(),
{
    if toks.len() == 0 {
        0
    } else {
        count_notes(toks.drop_last()) + if is_note_token(toks.last()) {
            1nat
        } else {
            0nat
        }
    }
}

/// Notes on one script line.
pub open spec fn line_notes(line: Seq<char>) -> nat {
    count_notes(split_on(line, ','))
}

/// The lines of a script; a line break at the very end opens no line.
pub open spec fn text_lines(t: Seq<char>) -> Seq<Seq<char>> {
    let ls = split_lines(t);
    if ls.len() > 0 && ls.last().len() == 0 {
        ls.drop_last()
    } else {
        ls
    }
}

/// Notes on each line of a script.
pub open spec fn script_counts(t: Seq<char>) -> Seq<nat> {
    Seq::new(text_lines(t).len(), |i: int| line_notes(text_lines(t)[i]))
}

/// The length of line `i` (0-based) when rating: that of the last pair whose line
/// number is at most `i + 1`, else four.
pub open spec fn rating_line_len(l: Seq<(u32, u32)>, i: int) -> int
    decreases l.len(),
{
    if l.len() == 0 {
        4
    } else if l.last().0 as int <= i + 1 {
        l.last().1 as int
    } else {
        rating_line_len(l.drop_last(), i)
    }
}

/// First and last beat of line `i`, the last held within a table of `tlen` beats.
pub open spec fn line_bounds(tlen: int, l: Seq<(u32, u32)>, i: nat) -> (int, int)
    decreases i,
{
    let start = if i == 0 {
        0
    } else {
        line_bounds(tlen, l, (i - 1) as nat).1
    };
    let end = if start + rating_line_len(l, i as int) < tlen - 1 {
        start + rating_line_len(l, i as int)
    } else {
        tlen - 1
    };
    (start, end)
}

/// The time each of `n` lines takes, from the beat time table.
pub open spec fn line_durations(t: Seq<u128>, l: Seq<(u32, u32)>, n: nat) -> Seq<int> {
    Seq::new(
        n,
        |i: int| t[line_bounds(t.len() as int, l, i as nat).1] as int - t[line_bounds(
            t.len() as int,
            l,
            i as nat,
        ).0] as int,
    )
}

pub open spec fn sum(s: Seq<int>) -> int
    decreases s.len(),
{
    if s.len() == 0 {
        0
    } else {
        sum(s.drop_last()) + s.last()
    }
}

/// Density of notes `c` over `d` nanoseconds, in millionths of a note per second.
pub open spec fn density(c: int, d: int) -> int {
    if d <= 0 {
        if c == 0 {
            0
        } else {
            DENSITY_CAP as int
        }
    } else if c * DENSITY_SCALE / d < DENSITY_CAP {
        c * DENSITY_SCALE / d
    } else {
        DENSITY_CAP as int
    }
}

/// Density of each window of eight consecutive lines.
pub open spec fn densities(counts: Seq<int>, durs: Seq<int>) -> Seq<u128> {
    Seq::new(
        (counts.len() - 7) as nat,
        |w: int| density(sum(counts.subrange(w, w + 8)), sum(durs.subrange(w, w + 8))) as u128,
    )
}

/// Densities are ordered as numbers.
pub open spec fn density_order() -> spec_fn(u128, u128) -> bool {
    |a: u128, b: u128| a <= b
}

pub open spec fn sum_u128(s: Seq<u128>) -> int
    decreases s.len(),
{
    if s.len() == 0 {
        0
    } else {
        sum_u128(s.drop_last()) + s.last() as int
    }
}

/// How many of the busiest windows are averaged: a fifth of the others, rounded up,
/// and at least one.
pub open spec fn top_count(m: int) -> int {
    if (m + 3) / 5 >= 1 {
        (m + 3) / 5
    } else {
        1
    }
}

/// Level from the sum `s` of the `k` top densities: ceil((s / k - 1) * 4.2) in notes
/// per second, at least 0 and at most 255.
pub open spec fn level_from(s: int, k: int) -> int {
    if s <= k * 1_000_000 {
        0
    } else {
        let lv = ((s - k * 1_000_000) * 42 + k * 10_000_000 - 1) / (k * 10_000_000);
        if lv > 255 {
            255
        } else {
            lv
        }
    }
}

/// The level of a script: 0 with fewer than eight lines; else from the busiest
/// windows' densities.
pub open spec fn script_level(script: Seq<char>, t: Seq<u128>, l: Seq<(u32, u32)>) -> int {
    let counts = script_counts(script).map_values(|c: nat| c as int);
    let n = counts.len();
    if n < 8 {
        0
    } else {
        let ds = densities(counts, line_durations(t, l, n));
        let m = ds.len() as int;
        let k = top_count(m);
        level_from(sum_u128(ds.sort_by(density_order()).subrange(m - k, m)), k)
    }
}

} // verus!

verus! {

fn is_note_token_exec(tok: &Vec<char>) -> (r: bool)
    ensures
        r == is_note_token(tok@),
{
    let tr = trim_chars(tok);
    if tr.len() == 0 {
        false
    } else if tr.len() == 1 && tr[0] == '-' {
        assert(tr@ == seq!['-']);
        false
    } else {
        proof {
            if tr@ == seq!['-'] {
                assert(tr@[0] == '-');
            }
        }
        true
    }
}

/// Notes on one line.
pub fn line_notes_exec(line: &Vec<char>) -> (r: usize)
    ensures
        r == line_notes(line@),
{
    let n = line.len();
    let mut count: usize = 0;
    let mut cur: Vec<char> = Vec::new();
    for i in 0..n
        invariant
            n == line@.len(),
            count + cur@.len() <= i,
            ({
                let ts = split_on(line@.take(i as int), ',');
                &&& count == count_notes(ts.drop_last())
                &&& cur@ == ts.last()
            }),
    {
        proof {
            lemma_split_on_len(line@.take(i as int), ',');
        }
        assert(line@.take(i + 1).drop_last() == line@.take(i as int));
        let ghost ts = split_on(line@.take(i as int), ',');
        let c = line[i];
        if c == ',' {
            proof {
                crate::text::lemma_trim_len(cur@);
            }
            if is_note_token_exec(&cur) {
                count = count + 1;
            }
            let ghost ts1 = split_on(line@.take(i + 1), ',');
            assert(ts1 == ts.push(seq![]));
            assert(ts1.drop_last() == ts);
            assert(ts.drop_last() == ts.drop_last());
            cur = Vec::new();
        } else {
            cur.push(c);
            let ghost ts1 = split_on(line@.take(i + 1), ',');
            assert(ts1.drop_last() == ts.drop_last());
        }
    }
    assert(line@.take(n as int) == line@);
    proof {
        lemma_split_on_len(line@, ',');
        let ts = split_on(line@, ',');
        assert(ts.drop_last().push(ts.last()) == ts);
        crate::text::lemma_trim_len(cur@);
    }
    if is_note_token_exec(&cur) {
        count = count + 1;
    }
    count
}

} // verus!

verus! {

/// Notes on each line of a script.
pub fn script_line_counts(script: &str) -> (r: Vec<usize>)
    ensures
        r@.len() == script_counts(script@).len(),
        forall|i: int| 0 <= i < r@.len() ==> #[trigger] r@[i] as nat == script_counts(script@)[i],
{
    let cs = chars_of(script);
    let n = cs.len();
    let mut counts: Vec<usize> = Vec::new();
    let mut cur: Vec<char> = Vec::new();
    for i in 0..n
        invariant
            n == cs@.len(),
            cs@ == script@,
            ({
                let ls = split_lines(script@.take(i as int));
                &&& ls.len() == counts@.len() + 1
                &&& cur@ == ls.last()
                &&& forall|j: int| 0 <= j < counts@.len() ==> #[trigger] counts@[j] as nat == line_notes(ls[j])
            }),
    {
        proof {
            crate::layout::lemma_split_lines_len(script@.take(i as int));
        }
        assert(script@.take(i + 1).drop_last() == script@.take(i as int));
        let c = cs[i];
        if c == '\n' {
            let k = line_notes_exec(&cur);
            counts.push(k);
            cur = Vec::new();
        } else {
            cur.push(c);
        }
    }
    assert(script@.take(n as int) == script@);
    proof {
        crate::layout::lemma_split_lines_len(script@);
    }
    if cur.len() > 0 {
        let k = line_notes_exec(&cur);
        counts.push(k);
    }
    let ghost ls = split_lines(script@);
    assert(text_lines(script@).len() == counts@.len());
    assert forall|i: int| 0 <= i < counts@.len() implies #[trigger] counts@[i] as nat == script_counts(script@)[i] by {
        assert(text_lines(script@)[i] == ls[i]);
    }
    counts
}

/// The length of line `i` when rating.
fn rating_line_len_exec(l: &BeatsLayout, i: usize) -> (r: u32)
    ensures
        r as int == rating_line_len(l@, i as int),
{
    let mut r: u32 = 4;
    let n = l.0.len();
    for q in 0..n
        invariant
            n == l@.len(),
            r as int == rating_line_len(l@.take(q as int), i as int),
    {
        assert(l@.take(q + 1).drop_last() == l@.take(q as int));
        if l.0[q].0 as u128 <= i as u128 + 1 {
            r = l.0[q].1;
        }
    }
    assert(l@.take(n as int) == l@);
    r
}

/// The time each of `n` lines takes.
fn line_durations_exec(t: &Vec<u128>, l: &BeatsLayout, n: usize) -> (r: Vec<u128>)
    requires
        t@.len() >= 1,
        forall|a: int, b: int| 0 <= a <= b < t@.len() ==> t@[a] <= t@[b],
        forall|a: int| 0 <= a < t@.len() ==> t@[a] < TIME_BOUND,
    ensures
        r@.len() == n,
        forall|i: int| 0 <= i < n ==> #[trigger] r@[i] < TIME_BOUND,
        forall|i: int| 0 <= i < n ==> #[trigger] r@[i] as int == line_durations(t@, l@, n as nat)[i],
{
    let tl = t.len();
    let mut start: usize = 0;
    let mut r: Vec<u128> = Vec::new();
    for i in 0..n
        invariant
            tl == t@.len(),
            tl >= 1,
            forall|a: int, b: int| 0 <= a <= b < t@.len() ==> t@[a] <= t@[b],
            forall|a: int| 0 <= a < t@.len() ==> t@[a] < TIME_BOUND,
            forall|q: int| 0 <= q < i ==> #[trigger] r@[q] < TIME_BOUND,
            start < tl,
            i > 0 ==> start as int == line_bounds(tl as int, l@, (i - 1) as nat).1,
            i == 0 ==> start == 0,
            r@.len() == i,
            forall|q: int| 0 <= q < i ==> #[trigger] r@[q] as int == line_durations(t@, l@, n as nat)[q],
    {
        let len = rating_line_len_exec(l, i);
        let end: usize = if (len as usize) < tl - 1 && start < tl - 1 - len as usize {
            start + len as usize
        } else {
            tl - 1
        };
        assert((start as int, end as int) == line_bounds(tl as int, l@, i as nat));
        r.push(t[end] - t[start]);
        start = end;
    }
    r
}

} // verus!

verus! {

proof fn lemma_density_order()
    ensures
        total_ordering(density_order()),
{
    let f = density_order();
    assert(vstd::relations::reflexive(f));
    assert(vstd::relations::antisymmetric(f));
    assert(vstd::relations::transitive(f));
    assert(vstd::relations::strongly_connected(f));
}

/// The values of `v` in ascending order.
fn sort_densities(v: &Vec<u128>) -> (r: Vec<u128>)
    ensures
        r@ == v@.sort_by(density_order()),
        r@.len() == v@.len(),
        forall|q: int| 0 <= q < r@.len() ==> v@.contains(#[trigger] r@[q]),
{
    let n = v.len();
    let mut r: Vec<u128> = Vec::new();
    for i in 0..n
        invariant
            n == v@.len(),
            sorted_by(r@, density_order()),
            r@.to_multiset() == v@.take(i as int).to_multiset(),
    {
        let x = v[i];
        let m = r.len();
        let mut p: usize = 0;
        while p < m && r[p] <= x
            invariant
                p <= m,
                m == r@.len(),
                forall|q: int| 0 <= q < p ==> r@[q] <= x,
            decreases m - p,
        {
            p = p + 1;
        }
        let ghost old_r = r@;
        r.insert(p, x);
        proof {
            assert(r@ == old_r.take(p as int).push(x) + old_r.skip(p as int));
            assert forall|a: int, b: int| 0 <= a < b < r@.len() implies (density_order())(r@[a], r@[b]) by {
                if b < p {
                    assert((density_order())(old_r[a], old_r[b]));
                } else if b == p {
                    assert(old_r[a] <= x);
                } else if a < p {
                    assert(r@[b] == old_r[b - 1]);
                    assert((density_order())(old_r[a], old_r[b - 1]));
                } else if a == p {
                    assert(r@[b] == old_r[b - 1]);
                    assert(old_r[p as int] > x);
                    if b - 1 > p {
                        assert((density_order())(old_r[p as int], old_r[b - 1]));
                    }
                } else {
                    assert((density_order())(old_r[a - 1], old_r[b - 1]));
                }
            }
            vstd::seq_lib::lemma_multiset_commutative(old_r.take(p as int).push(x), old_r.skip(p as int));
            vstd::seq_lib::lemma_multiset_commutative(old_r.take(p as int), old_r.skip(p as int));
            assert(old_r.take(p as int) + old_r.skip(p as int) == old_r);
            assert(v@.take(i + 1) == v@.take(i as int).push(x));
        }
    }
    assert(v@.take(n as int) == v@);
    assert(r@.len() == r@.to_multiset().len());
    assert(v@.len() == v@.to_multiset().len());
    assert forall|q: int| 0 <= q < r@.len() implies v@.contains(#[trigger] r@[q]) by {
        assert(r@.to_multiset().count(r@[q]) > 0);
    }
    proof {
        lemma_density_order();
        v@.lemma_sort_by_ensures(density_order());
        vstd::seq_lib::lemma_sorted_unique(r@, v@.sort_by(density_order()), density_order());
    }
    r
}

/// The largest beat time a table may hold: sums of eight differences stay in range.
pub const TIME_BOUND: u128 = 0x1000_0000_0000_0000_0000_0000_0000_0000;

/// The level of a script from the beat time table and the layout of its lines.
pub fn level_of(script: &str, table: &Vec<u128>, layout: &BeatsLayout) -> (r: u8)
    requires
        table@.len() >= 1,
        forall|a: int, b: int| 0 <= a <= b < table@.len() ==> table@[a] <= table@[b],
        forall|a: int| 0 <= a < table@.len() ==> table@[a] < TIME_BOUND,
    ensures
        r as int == script_level(script@, table@, layout@),
{
    let counts = script_line_counts(script);
    let n = counts.len();
    let ghost cs = script_counts(script@).map_values(|c: nat| c as int);
    assert(cs.len() == n);
    if n < 8 {
        return 0;
    }
    let durs = line_durations_exec(table, layout, n);
    let ghost dd = line_durations(table@, layout@, n as nat);
    let mut ds: Vec<u128> = Vec::new();
    for w in 0..n - 7
        invariant
            n == counts@.len(),
            n >= 8,
            durs@.len() == n,
            cs.len() == n,
            forall|i: int| 0 <= i < n ==> #[trigger] counts@[i] as int == cs[i],
            forall|i: int| 0 <= i < n ==> #[trigger] durs@[i] as int == dd[i],
            forall|i: int| 0 <= i < n ==> #[trigger] durs@[i] < TIME_BOUND,
            dd.len() == n,
            ds@.len() == w,
            forall|q: int| 0 <= q < w ==> #[trigger] ds@[q] == densities(cs, dd)[q],
            forall|q: int| 0 <= q < w ==> #[trigger] ds@[q] <= DENSITY_CAP,
    {
        let mut c: u128 = 0;
        let mut d: u128 = 0;
        for q in 0..8usize
            invariant
                w + 8 <= n,
                cs.len() == n,
                dd.len() == n,
                n == counts@.len(),
                durs@.len() == n,
                forall|i: int| 0 <= i < n ==> #[trigger] counts@[i] as int == cs[i],
                forall|i: int| 0 <= i < n ==> #[trigger] durs@[i] as int == dd[i],
                forall|i: int| 0 <= i < n ==> #[trigger] durs@[i] < TIME_BOUND,
                c as int == sum(cs.subrange(w as int, w + q)),
                d as int == sum(dd.subrange(w as int, w + q)),
                c as int <= q * 0x1_0000_0000_0000_0000,
                d as int <= q * TIME_BOUND,
        {
            assert(cs.subrange(w as int, w + q + 1).drop_last() == cs.subrange(w as int, w + q));
            assert(dd.subrange(w as int, w + q + 1).drop_last() == dd.subrange(w as int, w + q));
            c = c + counts[w + q] as u128;
            d = d + durs[w + q];
        }
        let den: u128 = if d == 0 {
            if c == 0 {
                0
            } else {
                DENSITY_CAP
            }
        } else {
            let x = c * DENSITY_SCALE / d;
            if x < DENSITY_CAP {
                x
            } else {
                DENSITY_CAP
            }
        };
        ds.push(den);
    }
    assert(ds@ == densities(cs, dd));
    let sorted = sort_densities(&ds);
    let m = ds.len();
    assert forall|q: int| 0 <= q < m implies #[trigger] sorted@[q] <= DENSITY_CAP by {
        assert(ds@.contains(sorted@[q]));
    }
    let k: usize = if (m + 3) / 5 >= 1 {
        (m + 3) / 5
    } else {
        1
    };
    let mut s: u128 = 0;
    for i in m - k..m
        invariant
            m == sorted@.len(),
            k <= m,
            s as int == sum_u128(sorted@.subrange(m - k, i as int)),
            s as int <= (i - (m - k)) * DENSITY_CAP,
            forall|q: int| 0 <= q < m ==> #[trigger] sorted@[q] <= DENSITY_CAP,
    {
        assert(sorted@.subrange(m - k, i + 1).drop_last() == sorted@.subrange(m - k, i as int));
        s = s + sorted[i];
    }
    let kk = k as u128;
    if s <= kk * 1_000_000 {
        0
    } else {
        let lv = ((s - kk * 1_000_000) * 42 + kk * 10_000_000 - 1) / (kk * 10_000_000);
        if lv > 255 {
            255
        } else {
            lv as u8
        }
    }
}

} // verus!

verus! {

/// A level is between 0 and 255, and a script of fewer than eight lines rates 0.
pub proof fn lemma_level_bounds(script: Seq<char>, t: Seq<u128>, l: Seq<(u32, u32)>)
    ensures
        0 <= script_level(script, t, l) <= 255,
        script_counts(script).len() < 8 ==> script_level(script, t, l) == 0,
{
    let counts = script_counts(script).map_values(|c: nat| c as int);
    let n = counts.len();
    if n >= 8 {
        let ds = densities(counts, line_durations(t, l, n));
        let m = ds.len() as int;
        let k = top_count(m);
        let s = sum_u128(ds.sort_by(density_order()).subrange(m - k, m));
        if s > k * 1_000_000 {
            let num = (s - k * 1_000_000) * 42 + k * 10_000_000 - 1;
            let den = k * 10_000_000;
            assert(num >= 0 && den > 0);
            assert(num / den >= 0) by (nonlinear_arith)
                requires
                    num >= 0,
                    den > 0,
            ;
        }
    }
}

} // verus!
