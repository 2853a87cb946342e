//! Line layouts of a beat script and the tempo changes they are derived from.

use vstd::prelude::*;

use crate::text::{
    chars_of, dec, dec_u32, digit_char, digit_to_char, find_char, find_char_in, parse_dec_u32,
    push_dec, tempo_value, trim, trim_chars, ParseError,
};

verus! {

/// Where the lengths of script lines differ from the default of four beats:
/// pairs of (1-based line number, line length), by strictly increasing line number.
/// A length stays in force for the following lines until the next pair.
#[derive(Debug, Clone)]
pub struct BeatsLayout(pub Vec<(u32, u32)>);

impl View for BeatsLayout {
    type V = Seq<(u32, u32)>;

    open spec fn view(&self) -> Seq<(u32, u32)> {
        self.0@
    }
}

/// Line numbers strictly increase and every length is at least one.
pub open spec fn layout_wf(l: Seq<(u32, u32)>) -> bool {
    &&& forall|i: int, j: int| 0 <= i < j < l.len() ==> l[i].0 < l[j].0
    &&& forall|i: int| 0 <= i < l.len() ==> l[i].1 >= 1
}

/// The length recorded for a line, if any.
pub open spec fn layout_get(l: Seq<(u32, u32)>, key: int) -> Option<u32>
    decreases l.len(),
{
    if l.len() == 0 {
        None
    } else if l.last().0 == key {
        Some(l.last().1)
    } else {
        layout_get(l.drop_last(), key)
    }
}

/// The length of the line with 0-based index `id` as scripts lay it out: the first
/// line has four beats, and entering line `id` (1-based number `id + 1`) takes the
/// length recorded for that number, if any.
pub open spec fn line_len(l: Seq<(u32, u32)>, id: nat) -> int
    decreases id,
{
    if id == 0 {
        4
    } else {
        match layout_get(l, id + 1 as int) {
            Some(v) => v as int,
            None => line_len(l, (id - 1) as nat),
        }
    }
}

pub proof fn lemma_layout_get_wf(l: Seq<(u32, u32)>, key: int)
    requires
        layout_wf(l),
    ensures
        layout_get(l, key) matches Some(v) ==> v >= 1,
        layout_get(l, key) is Some <==> exists|i: int| 0 <= i < l.len() && l[i].0 == key,
        forall|i: int| 0 <= i < l.len() && l[i].0 == key ==> layout_get(l, key) == Some(l[i].1),
    decreases l.len(),
{
    if l.len() > 0 {
        let d = l.drop_last();
        assert(layout_wf(d));
        lemma_layout_get_wf(d, key);
        if l.last().0 != key {
            assert forall|i: int| 0 <= i < d.len() && d[i].0 == key implies l[i].0 == key by {}
            if exists|i: int| 0 <= i < l.len() && l[i].0 == key {
                let i = choose|i: int| 0 <= i < l.len() && l[i].0 == key;
                assert(i != l.len() - 1);
                assert(d[i].0 == key);
            }
        } else {
            assert forall|i: int| 0 <= i < l.len() && l[i].0 == key implies i == l.len() - 1 by {
                if i < l.len() - 1 {
                    assert(l[i].0 < l[l.len() - 1].0);
                }
            }
        }
    }
}

pub proof fn lemma_line_len_pos(l: Seq<(u32, u32)>, id: nat)
    requires
        layout_wf(l),
    ensures
        line_len(l, id) >= 1,
    decreases id,
{
    if id > 0 {
        lemma_layout_get_wf(l, id + 1 as int);
        lemma_line_len_pos(l, (id - 1) as nat);
    }
}

impl BeatsLayout {
    pub open spec fn wf(&self) -> bool {
        layout_wf(self@)
    }

    /// The length recorded for line `key`, if any.
    pub fn get(&self, key: usize) -> (r: Option<u32>)
        ensures
            r == layout_get(self@, key as int),
    {
        let mut r: Option<u32> = None;
        let n = self.0.len();
        for i in 0..n
            invariant
                n == self@.len(),
                r == layout_get(self@.take(i as int), key as int),
        {
            assert(self@.take(i + 1).drop_last() == self@.take(i as int));
            if self.0[i].0 as usize == key {
                r = Some(self.0[i].1);
            }
        }
        assert(self@.take(n as int) == self@);
        r
    }
}

} // verus!

verus! {

/// Tempo changes: (beat index, new tempo in tenths of a beat per minute), by strictly
/// increasing beat index. The tempo in force at beat 0 is the song's own.
#[derive(Debug, Clone)]
pub struct BpmChanges(pub Vec<(u16, u32)>);

impl View for BpmChanges {
    type V = Seq<(u16, u32)>;

    open spec fn view(&self) -> Seq<(u16, u32)> {
        self.0@
    }
}

/// Beat indices strictly increase.
pub open spec fn changes_wf(c: Seq<(u16, u32)>) -> bool {
    forall|i: int, j: int| 0 <= i < j < c.len() ==> c[i].0 < c[j].0
}

/// Records `v` for line `key` at the end of a layout whose last line is at most `key`.
pub open spec fn set_last(l: Seq<(u32, u32)>, key: int, v: int) -> Seq<(u32, u32)> {
    if l.len() > 0 && l.last().0 == key {
        l.drop_last().push((key as u32, v as u32))
    } else {
        l.push((key as u32, v as u32))
    }
}

/// The layout before pruning, after the first `n` changes, with the beats that short
/// lines took so far and the number of short lines.
pub open spec fn raw_layout(c: Seq<(u16, u32)>, n: nat) -> (Seq<(u32, u32)>, int, int)
    decreases n,
{
    if n == 0 || n > c.len() {
        (seq![], 0, 0)
    } else {
        let (l, rem, added) = raw_layout(c, (n - 1) as nat);
        let i = c[n - 1].0 as int;
        let line = (i - rem) / 4 + 1 + added;
        let len = (i - rem) % 4;
        if len != 0 {
            (set_last(set_last(l, line, len), line + 1, 4), rem + len, added + 1)
        } else {
            (l, rem, added)
        }
    }
}

/// Drops every pair whose length equals that of the pair before it.
pub open spec fn prune(l: Seq<(u32, u32)>) -> Seq<(u32, u32)>
    decreases l.len(),
{
    if l.len() <= 1 {
        l
    } else if l.last().1 == l[l.len() - 2].1 {
        prune(l.drop_last())
    } else {
        prune(l.drop_last()).push(l.last())
    }
}

/// The layout that tempo changes induce.
pub open spec fn derived_layout(c: Seq<(u16, u32)>) -> Seq<(u32, u32)> {
    prune(raw_layout(c, c.len()).0)
}

proof fn lemma_raw_layout(c: Seq<(u16, u32)>, n: nat)
    requires
        changes_wf(c),
        n <= c.len(),
    ensures
        ({
            let (l, rem, added) = raw_layout(c, n);
            &&& layout_wf(l)
            &&& 0 <= added <= rem
            &&& n == 0 ==> rem == 0 && l.len() == 0
            &&& n > 0 ==> rem <= c[n - 1].0
            &&& l.len() > 0 ==> n > 0 && l.last().0 as int <= (c[n - 1].0 - rem) / 4 + 1 + added
            &&& l.len() > 0 ==> l.last().0 as int <= c[n - 1].0 + 1
            &&& forall|k: int| 0 <= k < l.len() ==> 1 <= #[trigger] l[k].1 <= 4
        }),
    decreases n,
{
    if n > 0 {
        lemma_raw_layout(c, (n - 1) as nat);
        let (l, rem, added) = raw_layout(c, (n - 1) as nat);
        let i = c[n - 1].0 as int;
        if n > 1 {
            assert(c[n - 2].0 < c[n - 1].0);
        }
        let line = (i - rem) / 4 + 1 + added;
        let len = (i - rem) % 4;
        if len != 0 {
            if l.len() > 0 {
                let pl = c[n - 2].0 as int;
                assert((pl - rem) / 4 <= (i - rem) / 4);
            }
            let l1 = set_last(l, line, len);
            assert(layout_wf(l1));
            let l2 = set_last(l1, line + 1, 4);
            assert(layout_wf(l2));
        }
    }
}

pub proof fn lemma_prune(l: Seq<(u32, u32)>)
    requires
        layout_wf(l),
    ensures
        layout_wf(prune(l)),
        prune(l).len() <= l.len(),
        l.len() > 0 ==> prune(l).len() > 0 && prune(l).last().0 <= l.last().0,
        forall|j: int| 0 <= j < prune(l).len() ==> exists|i: int| 0 <= i < l.len() && #[trigger] prune(l)[j] == l[i],
    decreases l.len(),
{
    if l.len() > 1 {
        let d = l.drop_last();
        assert(layout_wf(d));
        lemma_prune(d);
        if l.last().1 != l[l.len() - 2].1 {
            let p = prune(d).push(l.last());
            assert(prune(l) == p);
            assert forall|j: int| 0 <= j < p.len() implies exists|i: int| 0 <= i < l.len() && #[trigger] p[j] == l[i] by {
                if j < p.len() - 1 {
                    let i = choose|i: int| 0 <= i < d.len() && prune(d)[j] == d[i];
                    assert(p[j] == l[i]);
                } else {
                    assert(p[j] == l[l.len() - 1]);
                }
            }
            assert forall|a: int, b: int| 0 <= a < b < p.len() implies p[a].0 < p[b].0 by {
                if b == p.len() - 1 {
                    let i = choose|i: int| 0 <= i < d.len() && prune(d)[a] == d[i];
                    assert(l[i].0 < l[l.len() - 1].0);
                }
            }
        } else {
            assert(prune(l) == prune(d));
            assert forall|j: int| 0 <= j < prune(d).len() implies exists|i: int| 0 <= i < l.len() && #[trigger] prune(d)[j] == l[i] by {
                let i = choose|i: int| 0 <= i < d.len() && prune(d)[j] == d[i];
                assert(prune(d)[j] == l[i]);
            }
        }
    } else {
        assert forall|j: int| 0 <= j < prune(l).len() implies exists|i: int| 0 <= i < l.len() && #[trigger] prune(l)[j] == l[i] by {
            assert(prune(l)[j] == l[j]);
        }
    }
}

impl BeatsLayout {
    /// The empty layout: every line has four beats.
    pub fn new() -> (r: BeatsLayout)
        ensures
            r@ == Seq::<(u32, u32)>::empty(),
            r.wf(),
    {
        BeatsLayout(Vec::new())
    }
}

impl BpmChanges {
    pub open spec fn wf(&self) -> bool {
        changes_wf(self@)
    }

    /// The layout these changes induce: each change that does not fall on a line start
    /// shortens the line it falls in, and a four-beat line follows; a pair whose length
    /// equals the previous pair's is dropped.
    pub fn beats_layout(&self) -> (r: BeatsLayout)
        requires
            self.wf(),
        ensures
            r@ == derived_layout(self@),
            r.wf(),
    {
        let ghost c = self@;
        let n = self.0.len();
        let mut raw: Vec<(u32, u32)> = Vec::new();
        let mut remainder: u32 = 0;
        let mut added: u32 = 0;
        for j in 0..n
            invariant
                n == c.len(),
                c == self@,
                changes_wf(c),
                (raw@, remainder as int, added as int) == raw_layout(c, j as nat),
        {
            proof {
                lemma_raw_layout(c, j as nat);
                lemma_raw_layout(c, (j + 1) as nat);
                if j > 0 {
                    assert(c[j - 1].0 < c[j as int].0);
                }
            }
            let i = self.0[j].0 as u32;
            let line = (i - remainder) / 4 + 1 + added;
            let line_len = (i - remainder) % 4;
            if line_len != 0 {
                let k = raw.len();
                if k > 0 && raw[k - 1].0 == line {
                    raw.pop();
                }
                raw.push((line, line_len));
                raw.push((line + 1, 4));
                remainder = remainder + line_len;
                added = added + 1;
            }
        }
        proof {
            lemma_raw_layout(c, n as nat);
        }
        let ghost rl = raw@;
        assert(rl == raw_layout(c, c.len()).0);
        let mut out: Vec<(u32, u32)> = Vec::new();
        let m = raw.len();
        for k in 0..m
            invariant
                m == rl.len(),
                raw@ == rl,
                out@ == prune(rl.take(k as int)),
        {
            assert(rl.take(k + 1).drop_last() == rl.take(k as int));
            if k == 0 || raw[k].1 != raw[k - 1].1 {
                out.push(raw[k]);
            }
        }
        assert(rl.take(m as int) == rl);
        proof {
            lemma_prune(rl);
        }
        BeatsLayout(out)
    }
}

} // verus!

verus! {

/// Walks from line `id` (0-based) with `idx` beats left: the 1-based line where they
/// run out and the position in it.
pub open spec fn walk(l: Seq<(u32, u32)>, idx: int, id: nat) -> (nat, int)
    decreases idx,
{
    if idx < 0 || idx < line_len(l, id) || line_len(l, id) <= 0 {
        (id + 1, idx)
    } else {
        walk(l, idx - line_len(l, id), id + 1)
    }
}

/// The (1-based line, position in line) of beat `idx` in a script laid out by `l`.
pub open spec fn entry_pos_of(l: Seq<(u32, u32)>, idx: int) -> (nat, int) {
    walk(l, idx, 0)
}

proof fn lemma_walk_bound(l: Seq<(u32, u32)>, idx: int, id: nat)
    requires
        layout_wf(l),
        idx >= 0,
    ensures
        walk(l, idx, id).0 + walk(l, idx, id).1 <= id + 1 + idx,
        0 <= walk(l, idx, id).1 <= idx,
    decreases idx,
{
    lemma_line_len_pos(l, id);
    if idx >= line_len(l, id) {
        lemma_walk_bound(l, idx - line_len(l, id), id + 1);
    }
}

/// The layout that positions are taken in: the given one, else the derived one.
pub open spec fn layout_in_use(c: Seq<(u16, u32)>, b: Option<BeatsLayout>) -> Seq<(u32, u32)> {
    match b {
        Some(b) => b@,
        None => derived_layout(c),
    }
}

pub open spec fn pos_matches(p: (u32, u32), q: (nat, int)) -> bool {
    p.0 as int == q.0 && p.1 as int == q.1
}

impl BpmChanges {
    /// The (1-based line, position in line) of each change in a script laid out by
    /// `beats_layout`, or by the layout the changes induce when none is given.
    pub fn entry_pos(&self, beats_layout: &Option<BeatsLayout>) -> (r: Vec<(u32, u32)>)
        requires
            self.wf(),
            beats_layout matches Some(b) ==> b.wf(),
        ensures
            r@.len() == self@.len(),
            forall|j: int|
                0 <= j < r@.len() ==> pos_matches(
                    #[trigger] r@[j],
                    entry_pos_of(layout_in_use(self@, *beats_layout), self@[j].0 as int),
                ),
    {
        let layout = match beats_layout {
            Some(bl) => bl.clone_layout(),
            None => self.beats_layout(),
        };
        let ghost l = layout@;
        let n = self.0.len();
        let mut r: Vec<(u32, u32)> = Vec::new();
        for j in 0..n
            invariant
                n == self@.len(),
                l == layout@,
                layout.wf(),
                l == layout_in_use(self@, *beats_layout),
                r@.len() == j,
                forall|q: int|
                    0 <= q < j ==> pos_matches(#[trigger] r@[q], entry_pos_of(l, self@[q].0 as int)),
        {
            let idx0 = self.0[j].0 as u32;
            let mut idx: u32 = idx0;
            let mut line_id: u32 = 0;
            let mut line_length: u32 = 4;
            proof {
                lemma_walk_bound(l, idx0 as int, 0);
            }
            while idx >= line_length
                invariant
                    layout.wf(),
                    l == layout@,
                    line_length as int == line_len(l, line_id as nat),
                    walk(l, idx as int, line_id as nat) == walk(l, idx0 as int, 0),
                    line_id as int + idx as int <= idx0 as int,
                    idx0 <= 65535,
                decreases idx,
            {
                proof {
                    lemma_line_len_pos(l, line_id as nat);
                }
                idx = idx - line_length;
                match layout.get(line_id as usize + 2) {
                    Some(len) => {
                        line_length = len;
                    },
                    None => {},
                }
                line_id = line_id + 1;
            }
            r.push((line_id + 1, idx));
        }
        r
    }
}

impl BeatsLayout {
    /// A copy of the layout.
    pub fn clone_layout(&self) -> (r: BeatsLayout)
        ensures
            r@ == self@,
    {
        let mut v: Vec<(u32, u32)> = Vec::new();
        let n = self.0.len();
        for i in 0..n
            invariant
                n == self@.len(),
                v@ == self@.take(i as int),
        {
            v.push(self.0[i]);
            assert(v@ == self@.take(i + 1));
        }
        assert(self@.take(n as int) == self@);
        BeatsLayout(v)
    }
}

} // verus!

verus! {

/// Lines joined by line breaks.
pub open spec fn join_lines(ls: Seq<Seq<char>>) -> Seq<char>
    decreases ls.len(),
{
    if ls.len() == 0 {
        seq![]
    } else if ls.len() == 1 {
        ls[0]
    } else {
        join_lines(ls.drop_last()) + seq!['\n'] + ls.last()
    }
}

/// `{line}:{length},`
pub open spec fn layout_line(p: (u32, u32)) -> Seq<char> {
    dec(p.0 as nat) + seq![':'] + dec(p.1 as nat) + seq![',']
}

/// `[BPM]{line}:{tempo with one decimal},`
pub open spec fn bpm_line(line: nat, tenths: u32) -> Seq<char> {
    seq!['[', 'B', 'P', 'M', ']'] + dec(line) + seq![':'] + dec((tenths / 10) as nat) + seq![
        '.',
        digit_char((tenths % 10) as nat),
        ',',
    ]
}

pub open spec fn layout_lines(l: Seq<(u32, u32)>) -> Seq<Seq<char>> {
    Seq::new(l.len(), |k: int| layout_line(l[k]))
}

pub open spec fn bpm_lines(c: Seq<(u16, u32)>) -> Seq<Seq<char>> {
    Seq::new(
        c.len(),
        |j: int| bpm_line(entry_pos_of(derived_layout(c), c[j].0 as int).0, c[j].1),
    )
}

/// The tempo script: the layout lines, a line break, the tempo lines, a line break.
pub open spec fn tempo_script(c: Seq<(u16, u32)>) -> Seq<char> {
    join_lines(layout_lines(derived_layout(c))) + seq!['\n'] + join_lines(bpm_lines(c)) + seq![
        '\n',
    ]
}

fn push_layout_line(out: &mut Vec<char>, p: (u32, u32))
    ensures
        final(out)@ == old(out)@ + layout_line(p),
{
    push_dec(out, p.0 as u64);
    out.push(':');
    push_dec(out, p.1 as u64);
    out.push(',');
}

fn push_bpm_line(out: &mut Vec<char>, line: u32, tenths: u32)
    ensures
        final(out)@ == old(out)@ + bpm_line(line as nat, tenths),
{
    out.push('[');
    out.push('B');
    out.push('P');
    out.push('M');
    out.push(']');
    push_dec(out, line as u64);
    out.push(':');
    push_dec(out, (tenths / 10) as u64);
    out.push('.');
    out.push(digit_to_char((tenths % 10) as u64));
    out.push(',');
    assert(final(out)@ =~= old(out)@ + bpm_line(line as nat, tenths));
}

impl BpmChanges {
    /// The tempo script of these changes.
    pub fn to_script(&self) -> (r: String)
        requires
            self.wf(),
        ensures
            r@ == tempo_script(self@),
    {
        let layout = self.beats_layout();
        let ghost ll = layout_lines(layout@);
        let mut out: Vec<char> = Vec::new();
        let m = layout.0.len();
        for k in 0..m
            invariant
                m == layout@.len(),
                ll == layout_lines(layout@),
                out@ == join_lines(ll.take(k as int)),
        {
            assert(ll.take(k + 1).drop_last() == ll.take(k as int));
            if k > 0 {
                out.push('\n');
            }
            push_layout_line(&mut out, layout.0[k]);
            proof {
                if k == 0 {
                    assert(out@ == ll.take(1)[0]);
                }
            }
        }
        assert(ll.take(m as int) == ll);
        out.push('\n');
        let pos = self.entry_pos(&None);
        let ghost bl = bpm_lines(self@);
        let ghost head = out@;
        let n = self.0.len();
        for j in 0..n
            invariant
                n == self@.len(),
                pos@.len() == n,
                bl == bpm_lines(self@),
                forall|q: int|
                    0 <= q < n ==> pos_matches(
                        #[trigger] pos@[q],
                        entry_pos_of(layout_in_use(self@, None), self@[q].0 as int),
                    ),
                out@ == head + join_lines(bl.take(j as int)),
        {
            assert(bl.take(j + 1).drop_last() == bl.take(j as int));
            if j > 0 {
                out.push('\n');
            }
            let ghost before = out@;
            assert(pos_matches(pos@[j as int], entry_pos_of(layout_in_use(self@, None), self@[j as int].0 as int)));
            push_bpm_line(&mut out, pos[j].0, self.0[j].1);
            proof {
                if j == 0 {
                    assert(out@ == head + bl.take(1)[0]);
                } else {
                    assert(out@ == head + join_lines(bl.take(j as int)) + seq!['\n'] + bl[j as int]);
                }
            }
        }
        assert(bl.take(n as int) == bl);
        out.push('\n');
        crate::text::string_of(&out)
    }
}

} // verus!

verus! {

proof fn lemma_insert_seq(o: Seq<(u32, u32)>, p: int, q: int, key: u32, v: u32)
    requires
        layout_wf(o),
        v >= 1,
        0 <= p <= o.len(),
        forall|j: int| 0 <= j < p ==> o[j].0 < key,
        p < o.len() ==> o[p].0 >= key,
        q == if p < o.len() && o[p].0 == key { p + 1 } else { p },
    ensures
        ({
            let nw = o.take(p).push((key, v)) + o.subrange(q, o.len() as int);
            &&& layout_wf(nw)
            &&& forall|k: int|
                #[trigger] layout_get(nw, k) == if k == key as int {
                    Some(v)
                } else {
                    layout_get(o, k)
                }
        }),
{
    let n = o.len();
    let nw = o.take(p).push((key, v)) + o.subrange(q, o.len() as int);
    assert(forall|j: int| q <= j < n ==> o[j].0 > key) by {
        assert forall|j: int| q <= j < n implies o[j].0 > key by {
            if p < n {
                assert(o[p].0 >= key);
                if j > p {
                    assert(o[p].0 < o[j].0);
                }
            }
        }
    }
    assert(layout_wf(nw)) by {
        assert forall|a: int, b: int| 0 <= a < b < nw.len() implies nw[a].0 < nw[b].0 by {
            if b < p {
            } else if b == p {
            } else if a < p {
                assert(nw[b] == o[b - p - 1 + q]);
            } else if a == p {
                assert(nw[b] == o[b - p - 1 + q]);
            } else {
                assert(nw[a] == o[a - p - 1 + q]);
                assert(nw[b] == o[b - p - 1 + q]);
            }
        }
        assert forall|a: int| 0 <= a < nw.len() implies nw[a].1 >= 1 by {
            if a > p {
                assert(nw[a] == o[a - p - 1 + q]);
            }
        }
    }
    assert forall|k: int|
        #[trigger] layout_get(nw, k) == if k == key as int {
            Some(v)
        } else {
            layout_get(o, k)
        } by {
        lemma_layout_get_wf(nw, k);
        lemma_layout_get_wf(o, k);
        if k == key as int {
            assert(nw[p].0 == key);
        } else {
            if exists|i: int| 0 <= i < o.len() && o[i].0 == k {
                let i = choose|i: int| 0 <= i < o.len() && o[i].0 == k;
                if i < p {
                    assert(nw[i] == o[i]);
                } else {
                    assert(i >= q);
                    assert(nw[i - q + p + 1] == o[i]);
                }
            }
            if exists|i: int| 0 <= i < nw.len() && nw[i].0 == k {
                let i = choose|i: int| 0 <= i < nw.len() && nw[i].0 == k;
                if i < p {
                    assert(nw[i] == o[i]);
                } else {
                    assert(i > p);
                    assert(nw[i] == o[i - p - 1 + q]);
                }
            }
        }
    }
}

impl BeatsLayout {
    /// Records length `v` for line `key`, replacing any length recorded for it.
    pub fn insert(&mut self, key: u32, v: u32)
        requires
            old(self).wf(),
            v >= 1,
        ensures
            final(self).wf(),
            forall|k: int|
                #[trigger] layout_get(final(self)@, k) == if k == key as int {
                    Some(v)
                } else {
                    layout_get(old(self)@, k)
                },
    {
        let ghost o = self@;
        let n = self.0.len();
        let mut p: usize = 0;
        proof {
            lemma_layout_get_wf(o, 0);
        }
        while p < n && self.0[p].0 < key
            invariant
                p <= n,
                n == o.len(),
                self@ == o,
                forall|j: int| 0 <= j < p ==> o[j].0 < key,
            decreases n - p,
        {
            p = p + 1;
        }
        let q: usize = if p < n && self.0[p].0 == key {
            p + 1
        } else {
            p
        };
        let mut out: Vec<(u32, u32)> = Vec::new();
        for i in 0..p
            invariant
                p <= n,
                n == o.len(),
                self@ == o,
                out@ == o.take(i as int),
        {
            out.push(self.0[i]);
            assert(out@ == o.take(i + 1));
        }
        out.push((key, v));
        let ghost mid = out@;
        for i in q..n
            invariant
                p <= q <= n,
                n == o.len(),
                self@ == o,
                mid == o.take(p as int).push((key, v)),
                out@ == mid + o.subrange(q as int, i as int),
        {
            out.push(self.0[i]);
            assert(out@ == mid + o.subrange(q as int, i + 1));
        }
        proof {
            lemma_insert_seq(o, p as int, q as int, key, v);
        }
        assert(out@ == o.take(p as int).push((key, v)) + o.subrange(q as int, n as int));
        self.0 = out;
    }
}

} // verus!

verus! {

/// What one line of a tempo script says.
#[derive(Debug, Clone, Copy, PartialEq, Eq, Structural)]
pub enum LineItem {
    /// An empty line.
    Blank,
    /// `{line}:{length},`
    Len(u32, u32),
    /// `[BPM]{line}:{tempo},`, the tempo in tenths.
    Tempo(u32, u32),
}

/// The lines of `t`, split at line breaks.
pub open spec fn split_lines(t: Seq<char>) -> Seq<Seq<char>>
    decreases t.len(),
{
    if t.len() == 0 {
        seq![seq![]]
    } else {
        let s = split_lines(t.drop_last());
        if t.last() == '\n' {
            s.push(seq![])
        } else {
            s.update(s.len() - 1, s.last().push(t.last()))
        }
    }
}

pub proof fn lemma_split_lines_len(t: Seq<char>)
    ensures
        split_lines(t).len() >= 1,
    decreases t.len(),
{
    if t.len() > 0 {
        lemma_split_lines_len(t.drop_last());
    }
}

pub open spec fn bpm_tag() -> Seq<char> {
    seq!['[', 'B', 'P', 'M', ']']
}

/// Reads `a:b` as two numbers, if it holds a colon and both sides are numbers.
pub open spec fn parse_pair(body: Seq<char>) -> Option<(u32, Seq<char>)> {
    match find_char(body, ':') {
        None => None,
        Some(p) => match dec_u32(body.take(p)) {
            Some(a) => Some((a, body.skip(p + 1))),
            None => None,
        },
    }
}

/// What a trimmed line says, if it is in one of the three shapes.
pub open spec fn parse_item(l: Seq<char>) -> Option<LineItem> {
    if l.len() == 0 {
        Some(LineItem::Blank)
    } else if l.last() != ',' {
        None
    } else if l[0] == '[' {
        if l.len() >= 6 && l.take(5) == bpm_tag() {
            match parse_pair(l.subrange(5, l.len() - 1)) {
                Some((a, rest)) => match tempo_value(rest) {
                    Some(b) => Some(LineItem::Tempo(a, b)),
                    None => None,
                },
                None => None,
            }
        } else {
            None
        }
    } else {
        match parse_pair(l.drop_last()) {
            Some((a, rest)) => match dec_u32(rest) {
                Some(b) => if b >= 1 {
                    Some(LineItem::Len(a, b))
                } else {
                    None
                },
                None => None,
            },
            None => None,
        }
    }
}

/// The item of each line, if every line is in shape.
pub open spec fn script_items(t: Seq<char>) -> Option<Seq<LineItem>> {
    let ls = split_lines(t);
    if forall|i: int| 0 <= i < ls.len() ==> (#[trigger] parse_item(trim(ls[i]))) is Some {
        Some(Seq::new(ls.len(), |i: int| parse_item(trim(ls[i]))->0))
    } else {
        None
    }
}

fn parse_pair_exec(body: &Vec<char>) -> (r: Option<(u32, Vec<char>)>)
    ensures
        match parse_pair(body@) {
            Some((a, rest)) => r matches Some((x, y)) && x == a && y@ == rest,
            None => r is None,
        },
{
    match find_char_in(body, ':') {
        None => None,
        Some(p) => {
            assert(body@.subrange(0, p as int) == body@.take(p as int));
            match parse_dec_u32(body, 0, p) {
                None => None,
                Some(a) => {
                    let mut rest: Vec<char> = Vec::new();
                    let n = body.len();
                    for i in p + 1..n
                        invariant
                            n == body@.len(),
                            p < n,
                            rest@ == body@.subrange(p + 1, i as int),
                    {
                        rest.push(body[i]);
                        assert(rest@ == body@.subrange(p + 1, i + 1));
                    }
                    assert(rest@ == body@.skip(p + 1));
                    assert(find_char(body@, ':') == Some(p as int));
                    assert(dec_u32(body@.take(p as int)) == Some(a));
                    assert(parse_pair(body@) == Some((a, rest@)));
                    Some((a, rest))
                },
            }
        },
    }
}

fn tempo_value_exec(t: &Vec<char>) -> (r: Option<u32>)
    ensures
        r == tempo_value(t@),
{
    let n = t.len();
    match find_char_in(t, '.') {
        None => {
            assert(t@.subrange(0, n as int) == t@);
            match parse_dec_u32(t, 0, n) {
                Some(v) => if v <= u32::MAX / 10 {
                    Some(v * 10)
                } else {
                    assert(v * 10 > u32::MAX) by (nonlinear_arith)
                        requires
                            v > u32::MAX / 10,
                    ;
                    None
                },
                None => {
                    proof {
                        if crate::text::dec_value(t@) is Some {
                            assert(crate::text::dec_value(t@)->0 * 10 > u32::MAX);
                        }
                    }
                    None
                },
            }
        },
        Some(p) => {
            if n < 2 || p != n - 2 {
                return None;
            }
            assert(t@.subrange(0, p as int) == t@.take(p as int));
            let c = t[p + 1];
            assert(c == t@[p + 1]);
            if c < '0' || c > '9' {
                return None;
            }
            let d = c as u32 - '0' as u32;
            assert(crate::text::digit_value(t@[p + 1]) == Some(d as nat));
            match parse_dec_u32(t, 0, p) {
                Some(v) => if v <= (u32::MAX - d) / 10 {
                    assert(v * 10 + d <= u32::MAX) by (nonlinear_arith)
                        requires
                            v <= (u32::MAX - d) / 10,
                            d <= 9,
                    ;
                    Some(v * 10 + d)
                } else {
                    assert(v * 10 + d > u32::MAX) by (nonlinear_arith)
                        requires
                            v > (u32::MAX - d) / 10,
                            d <= 9,
                    ;
                    None
                },
                None => {
                    proof {
                        if crate::text::dec_value(t@.take(p as int)) is Some {
                            assert(crate::text::dec_value(t@.take(p as int))->0 > u32::MAX);
                        }
                    }
                    None
                },
            }
        },
    }
}

fn parse_item_exec(l: &Vec<char>) -> (r: Option<LineItem>)
    ensures
        r == parse_item(l@),
{
    let n = l.len();
    if n == 0 {
        return Some(LineItem::Blank);
    }
    if l[n - 1] != ',' {
        return None;
    }
    if l[0] == '[' {
        if n >= 6 && l[1] == 'B' && l[2] == 'P' && l[3] == 'M' && l[4] == ']' {
            assert(l@.take(5) == bpm_tag());
            let mut body: Vec<char> = Vec::new();
            for i in 5..n - 1
                invariant
                    n == l@.len(),
                    n >= 6,
                    body@ == l@.subrange(5, i as int),
            {
                body.push(l[i]);
                assert(body@ == l@.subrange(5, i + 1));
            }
            match parse_pair_exec(&body) {
                Some((a, rest)) => match tempo_value_exec(&rest) {
                    Some(b) => Some(LineItem::Tempo(a, b)),
                    None => None,
                },
                None => None,
            }
        } else {
            proof {
                if n >= 6 && l@.take(5) == bpm_tag() {
                    assert(l@.take(5)[1] == 'B');
                    assert(l@.take(5)[2] == 'P');
                    assert(l@.take(5)[3] == 'M');
                    assert(l@.take(5)[4] == ']');
                }
            }
            None
        }
    } else {
        let mut body: Vec<char> = Vec::new();
        for i in 0..n - 1
            invariant
                n == l@.len(),
                n >= 1,
                body@ == l@.subrange(0, i as int),
        {
            body.push(l[i]);
            assert(body@ == l@.subrange(0, i + 1));
        }
        assert(body@ == l@.drop_last());
        match parse_pair_exec(&body) {
            Some((a, rest)) => {
                assert(rest@.subrange(0, rest@.len() as int) == rest@);
                match parse_dec_u32(&rest, 0, rest.len()) {
                    Some(b) => if b >= 1 {
                        Some(LineItem::Len(a, b))
                    } else {
                        None
                    },
                    None => None,
                }
            },
            None => None,
        }
    }
}

/// Reads every line of a tempo script; fails at the first line (counted from zero)
/// that is in none of the three shapes.
pub fn parse_script_items(script: &str) -> (r: Result<Vec<LineItem>, ParseError>)
    ensures
        r is Ok <==> script_items(script@) is Some,
        r matches Ok(v) ==> script_items(script@) == Some(v@) && items_wf(v@),
{
    let cs = chars_of(script);
    let n = cs.len();
    let mut items: Vec<LineItem> = Vec::new();
    let mut cur: Vec<char> = Vec::new();
    for i in 0..n
        invariant
            n == cs@.len(),
            cs@ == script@,
            ({
                let ls = split_lines(script@.take(i as int));
                &&& ls.len() == items@.len() + 1
                &&& cur@ == ls.last()
                &&& forall|j: int| 0 <= j < items@.len() ==> parse_item(trim(ls[j])) == Some(#[trigger] items@[j])
            }),
    {
        proof {
            lemma_split_lines_len(script@.take(i as int));
        }
        assert(script@.take(i + 1).drop_last() == script@.take(i as int));
        let c = cs[i];
        if c == '\n' {
            let line = trim_chars(&cur);
            match parse_item_exec(&line) {
                Some(it) => {
                    items.push(it);
                    cur = Vec::new();
                },
                None => {
                    proof {
                        lemma_split_lines_prefix(script@, i + 1);
                        let ls = split_lines(script@.take(i as int));
                        let ls1 = split_lines(script@.take(i + 1));
                        assert(ls1 == ls.push(seq![]));
                        assert(ls1[items@.len() as int] == ls.last());
                        assert(split_lines(script@)[items@.len() as int] == ls.last());
                        assert(parse_item(trim(split_lines(script@)[items@.len() as int])) is None);
                    }
                    return Err(ParseError::MalformedLine(items.len()));
                },
            }
        } else {
            cur.push(c);
        }
    }
    assert(script@.take(n as int) == script@);
    proof {
        lemma_split_lines_len(script@);
    }
    let line = trim_chars(&cur);
    let ghost before = items@;
    match parse_item_exec(&line) {
        Some(it) => items.push(it),
        None => {
            return Err(ParseError::MalformedLine(items.len()));
        },
    }
    let ghost ls = split_lines(script@);
    assert forall|j: int| 0 <= j < ls.len() implies parse_item(trim(ls[j])) == Some(#[trigger] items@[j]) by {
        if j < before.len() {
            assert(items@[j] == before[j]);
        }
    }
    assert forall|j: int| 0 <= j < ls.len() implies (#[trigger] parse_item(trim(ls[j]))) is Some by {
        assert(parse_item(trim(ls[j])) == Some(items@[j]));
    }
    assert forall|j: int| 0 <= j < items@.len() implies len_ok(#[trigger] items@[j]) by {
        assert(parse_item(trim(ls[j])) == Some(items@[j]));
    }
    assert(items@ == Seq::new(
        split_lines(script@).len(),
        |i: int| parse_item(trim(split_lines(script@)[i]))->0,
    ));
    Ok(items)
}

/// Lines split from a prefix stay lines of the whole text, but for the last one.
pub proof fn lemma_split_lines_prefix(t: Seq<char>, m: int)
    requires
        0 <= m <= t.len(),
    ensures
        split_lines(t).len() >= split_lines(t.take(m)).len(),
        forall|j: int|
            0 <= j < split_lines(t.take(m)).len() - 1 ==> split_lines(t)[j] == #[trigger] split_lines(
                t.take(m),
            )[j],
    decreases t.len() - m,
{
    lemma_split_lines_len(t.take(m));
    if m < t.len() {
        assert(t.take(m + 1).drop_last() == t.take(m));
        lemma_split_lines_prefix(t, m + 1);
        lemma_split_lines_len(t.take(m + 1));
        let a = split_lines(t.take(m));
        let b = split_lines(t.take(m + 1));
        assert(b.len() >= a.len());
        assert forall|j: int| 0 <= j < a.len() - 1 implies split_lines(t)[j] == #[trigger] a[j] by {
            assert(b[j] == a[j]);
        }
    } else {
        assert(t.take(m) == t);
    }
}

} // verus!

verus! {

/// The length that the last `{key}:{length},` line of the items records, if any.
pub open spec fn last_len(items: Seq<LineItem>, key: int) -> Option<u32>
    decreases items.len(),
{
    if items.len() == 0 {
        None
    } else {
        match items.last() {
            LineItem::Len(a, b) => if a as int == key {
                Some(b)
            } else {
                last_len(items.drop_last(), key)
            },
            _ => last_len(items.drop_last(), key),
        }
    }
}

/// The length of line `id` (0-based) as a tempo script's layout lines give it: the
/// first line takes the length recorded for line 1, and later lines keep the last
/// length recorded up to them; four beats where none is.
pub open spec fn item_line_len(items: Seq<LineItem>, id: nat) -> int
    decreases id,
{
    match last_len(items, id + 1 as int) {
        Some(v) => v as int,
        None => if id == 0 {
            4
        } else {
            item_line_len(items, (id - 1) as nat)
        },
    }
}

/// The beat index at which line `line` (1-based) starts.
pub open spec fn item_line_start(items: Seq<LineItem>, line: nat) -> int
    decreases line,
{
    if line <= 1 {
        0
    } else {
        item_line_start(items, (line - 1) as nat) + item_line_len(items, (line - 2) as nat)
    }
}

/// A tempo line starts at a beat index of 16 bits.
pub open spec fn start_fits(items: Seq<LineItem>, it: LineItem) -> bool {
    match it {
        LineItem::Tempo(line, _) => item_line_start(items, line as nat) <= 65535,
        _ => true,
    }
}

/// Two tempo lines do not start at the same beat index.
pub open spec fn starts_differ(items: Seq<LineItem>, a: LineItem, b: LineItem) -> bool {
    match (a, b) {
        (LineItem::Tempo(x, _), LineItem::Tempo(y, _)) => item_line_start(items, x as nat)
            != item_line_start(items, y as nat),
        _ => true,
    }
}

/// The tempo change that a tempo line gives.
pub open spec fn gives_change(items: Seq<LineItem>, it: LineItem, p: (u16, u32)) -> bool {
    match it {
        LineItem::Tempo(line, t) => p.0 as int == item_line_start(items, line as nat) && p.1 == t,
        _ => false,
    }
}

/// Every tempo line starts at a beat index of 16 bits, and no two at the same one.
pub open spec fn tempo_lines_ok(items: Seq<LineItem>) -> bool {
    &&& forall|j: int| 0 <= j < items.len() ==> start_fits(items, #[trigger] items[j])
    &&& forall|j1: int, j2: int|
        0 <= j1 < j2 < items.len() ==> starts_differ(items, #[trigger] items[j1], #[trigger] items[j2])
}

/// Some tempo line of the items gives change `p`.
pub open spec fn is_tempo_of(items: Seq<LineItem>, p: (u16, u32)) -> bool {
    exists|j: int| 0 <= j < items.len() && gives_change(items, #[trigger] items[j], p)
}

pub open spec fn len_ok(it: LineItem) -> bool {
    match it {
        LineItem::Len(_, b) => b >= 1,
        _ => true,
    }
}

/// Every recorded line length is at least one.
pub open spec fn items_wf(items: Seq<LineItem>) -> bool {
    forall|j: int| 0 <= j < items.len() ==> len_ok(#[trigger] items[j])
}

pub open spec fn has_tempo_line(items: Seq<LineItem>) -> bool {
    exists|j: int| 0 <= j < items.len() && #[trigger] items[j] is Tempo
}

fn layout_from_items(items: &Vec<LineItem>) -> (r: BeatsLayout)
    requires
        items_wf(items@),
    ensures
        r.wf(),
        forall|k: int| #[trigger] layout_get(r@, k) == last_len(items@, k),
{
    let mut l = BeatsLayout::new();
    let n = items.len();
    for j in 0..n
        invariant
            n == items@.len(),
            l.wf(),
            items_wf(items@),
            forall|k: int| #[trigger] layout_get(l@, k) == last_len(items@.take(j as int), k),
    {
        assert(items@.take(j + 1).drop_last() == items@.take(j as int));
        match items[j] {
            LineItem::Len(a, b) => {
                assert(len_ok(items@[j as int]));
                l.insert(a, b);
            },
            _ => {},
        }
        assert forall|k: int| #[trigger] layout_get(l@, k) == last_len(items@.take(j + 1), k) by {}
    }
    assert(items@.take(n as int) == items@);
    l
}

proof fn lemma_item_line_len_pos(items: Seq<LineItem>, l: Seq<(u32, u32)>, id: nat)
    requires
        layout_wf(l),
        forall|k: int| #[trigger] layout_get(l, k) == last_len(items, k),
    ensures
        item_line_len(items, id) >= 1,
    decreases id,
{
    lemma_layout_get_wf(l, id + 1 as int);
    assert(layout_get(l, id + 1 as int) == last_len(items, id + 1 as int));
    if id > 0 {
        lemma_item_line_len_pos(items, l, (id - 1) as nat);
    }
}

proof fn lemma_line_start_mono(items: Seq<LineItem>, l: Seq<(u32, u32)>, a: nat, b: nat)
    requires
        layout_wf(l),
        forall|k: int| #[trigger] layout_get(l, k) == last_len(items, k),
        a <= b,
    ensures
        item_line_start(items, a) <= item_line_start(items, b),
    decreases b - a,
{
    if a < b {
        lemma_line_start_mono(items, l, a, (b - 1) as nat);
        if b >= 2 {
            lemma_item_line_len_pos(items, l, (b - 2) as nat);
        }
    }
}

/// The beat index where line `line` starts, if it fits in 16 bits.
fn line_start_exec(l: &BeatsLayout, line: u32, Ghost(items): Ghost<Seq<LineItem>>) -> (r: Option<u16>)
    requires
        l.wf(),
        forall|k: int| #[trigger] layout_get(l@, k) == last_len(items, k),
    ensures
        item_line_start(items, line as nat) <= 65535 ==> r == Some(
            item_line_start(items, line as nat) as u16,
        ),
        item_line_start(items, line as nat) > 65535 ==> r is None,
        item_line_start(items, line as nat) >= 0,
{
    proof {
        lemma_line_start_mono(items, l@, 0, line as nat);
    }
    if line <= 1 {
        return Some(0);
    }
    let mut idx: u64 = 0;
    let mut cur_line: u32 = 1;
    let mut cur_len: u32 = match l.get(1) {
        Some(v) => v,
        None => 4,
    };
    while cur_line < line
        invariant
            l.wf(),
            forall|k: int| #[trigger] layout_get(l@, k) == last_len(items, k),
            1 <= cur_line <= line,
            idx as int == item_line_start(items, cur_line as nat),
            idx <= 65535,
            cur_len as int == item_line_len(items, (cur_line - 1) as nat),
        decreases line - cur_line,
    {
        idx = idx + cur_len as u64;
        if idx > 65535 {
            proof {
                lemma_line_start_mono(items, l@, (cur_line + 1) as nat, line as nat);
            }
            return None;
        }
        match l.get(cur_line as usize + 1) {
            Some(v) => {
                cur_len = v;
            },
            None => {},
        }
        cur_line = cur_line + 1;
    }
    Some(idx as u16)
}

/// Adds a change to changes ordered by strictly increasing index; refuses one whose
/// index is taken.
fn insert_change(v: &mut Vec<(u16, u32)>, p: (u16, u32)) -> (ok: bool)
    requires
        changes_wf(old(v)@),
    ensures
        changes_wf(final(v)@),
        ok <==> forall|i: int| 0 <= i < old(v)@.len() ==> old(v)@[i].0 != p.0,
        ok ==> forall|x: (u16, u32)| #[trigger] final(v)@.contains(x) <==> (old(v)@.contains(x) || x == p),
        !ok ==> final(v)@ == old(v)@,
{
    let ghost o = v@;
    let n = v.len();
    let mut k: usize = 0;
    while k < n && v[k].0 < p.0
        invariant
            k <= n,
            n == o.len(),
            v@ == o,
            forall|j: int| 0 <= j < k ==> o[j].0 < p.0,
        decreases n - k,
    {
        k = k + 1;
    }
    if k < n && v[k].0 == p.0 {
        return false;
    }
    proof {
        assert forall|i: int| 0 <= i < o.len() implies o[i].0 != p.0 by {
            if i > k {
                assert(o[k as int].0 < o[i].0);
            }
        }
    }
    v.insert(k, p);
    proof {
        let nw = v@;
        assert(nw == o.take(k as int).push(p) + o.skip(k as int));
        assert forall|a: int, b: int| 0 <= a < b < nw.len() implies nw[a].0 < nw[b].0 by {
            if b < k {
            } else if b == k {
            } else if a < k {
                assert(nw[b] == o[b - 1]);
                if k < n {
                    assert(o[k as int].0 > p.0);
                }
            } else if a == k {
                assert(nw[b] == o[b - 1]);
                assert(o[k as int].0 > p.0);
            } else {
                assert(nw[a] == o[a - 1]);
                assert(nw[b] == o[b - 1]);
            }
        }
        assert forall|x: (u16, u32)| #[trigger] nw.contains(x) <==> (o.contains(x) || x == p) by {
            if nw.contains(x) {
                let i = choose|i: int| 0 <= i < nw.len() && nw[i] == x;
                if i < k {
                    assert(o[i] == x);
                } else if i > k {
                    assert(o[i - 1] == x);
                }
            }
            if o.contains(x) {
                let i = choose|i: int| 0 <= i < o.len() && o[i] == x;
                if i < k {
                    assert(nw[i] == x);
                } else {
                    assert(nw[i + 1] == x);
                }
            }
            if x == p {
                assert(nw[k as int] == x);
            }
        }
    }
    true
}

impl BeatsLayout {
    /// Reads the layout lines of a tempo script; `None` when it has none.
    pub fn from_script(script: &str) -> (r: Result<Option<BeatsLayout>, ParseError>)
        ensures
            r is Ok <==> script_items(script@) is Some,
            r matches Ok(Some(b)) ==> b.wf() && b@.len() > 0 && forall|k: int| #[trigger] layout_get(b@, k) == last_len(
                script_items(script@)->0,
                k,
            ),
            r matches Ok(None) ==> forall|k: int| #[trigger] last_len(script_items(script@)->0, k) is None,
    {
        let items = match parse_script_items(script) {
            Ok(items) => items,
            Err(e) => {
                return Err(e);
            },
        };
        let layout = layout_from_items(&items);
        if layout.0.len() == 0 {
            assert forall|k: int| #[trigger] last_len(items@, k) is None by {
                assert(layout_get(layout@, k) == last_len(items@, k));
            }
            Ok(None)
        } else {
            Ok(Some(layout))
        }
    }
}

impl BpmChanges {
    /// Reads the tempo lines of a tempo script, placing each at the beat where its line
    /// starts under the script's own layout lines; `None` when it has none.
    #[verifier::rlimit(80)]
    pub fn from_script(script: &str) -> (r: Result<Option<BpmChanges>, ParseError>)
        ensures
            r is Ok <==> (script_items(script@) is Some && tempo_lines_ok(script_items(script@)->0)),
            r matches Ok(None) ==> !has_tempo_line(script_items(script@)->0),
            r matches Ok(Some(c)) ==> has_tempo_line(script_items(script@)->0) && c.wf() && forall|
                p: (u16, u32),
            | #[trigger] c@.contains(p) <==> is_tempo_of(script_items(script@)->0, p),
    {
        let items = match parse_script_items(script) {
            Ok(items) => items,
            Err(e) => {
                return Err(e);
            },
        };
        let ghost its = items@;
        let layout = layout_from_items(&items);
        let mut v: Vec<(u16, u32)> = Vec::new();
        let n = items.len();
        for j in 0..n
            invariant
                n == its.len(),
                its == items@,
                script_items(script@) == Some(its),
                layout.wf(),
                forall|k: int| #[trigger] layout_get(layout@, k) == last_len(its, k),
                changes_wf(v@),
                forall|q: int| 0 <= q < j ==> start_fits(its, #[trigger] its[q]),
                forall|q1: int, q2: int|
                    0 <= q1 < q2 < j ==> starts_differ(its, #[trigger] its[q1], #[trigger] its[q2]),
                forall|x: (u16, u32)|
                    #[trigger] v@.contains(x) <==> exists|q: int|
                        0 <= q < j && gives_change(its, #[trigger] its[q], x),
                v@.len() == 0 <==> forall|q: int| 0 <= q < j ==> !(#[trigger] its[q] is Tempo),
        {
            match items[j] {
                LineItem::Tempo(line, t) => {
                    assert(its[j as int] == LineItem::Tempo(line, t));
                    match line_start_exec(&layout, line, Ghost(its)) {
                        None => {
                            assert(!start_fits(its, its[j as int]));
                            assert(!tempo_lines_ok(its));
                            return Err(ParseError::MalformedLine(j));
                        },
                        Some(idx) => {
                            let ghost before = v@;
                            if !insert_change(&mut v, (idx, t)) {
                                proof {
                                    let i = choose|i: int| 0 <= i < before.len() && before[i].0 == idx;
                                    assert(before.contains(before[i]));
                                    let q = choose|q: int|
                                        0 <= q < j && gives_change(its, #[trigger] its[q], before[i]);
                                    assert(!starts_differ(its, its[q], its[j as int]));
                                    assert(!tempo_lines_ok(its));
                                }
                                return Err(ParseError::MalformedLine(j));
                            }
                            proof {
                                assert(v@.contains((idx, t)));
                                assert(gives_change(its, its[j as int], (idx, t)));
                                assert forall|q1: int, q2: int|
                                    0 <= q1 < q2 < j + 1 implies starts_differ(its, #[trigger] its[q1], #[trigger] its[q2]) by {
                                    if q2 == j {
                                        if let LineItem::Tempo(a, t1) = its[q1] {
                                            if item_line_start(its, a as nat) == item_line_start(its, line as nat) {
                                                let x = (idx, t1);
                                                assert(gives_change(its, its[q1], x));
                                                assert(before.contains(x));
                                                let i = choose|i: int| 0 <= i < before.len() && before[i] == x;
                                                assert(before[i].0 == idx);
                                            }
                                        }
                                    }
                                }
                                assert forall|x: (u16, u32)|
                                    #[trigger] v@.contains(x) <==> exists|q: int|
                                        0 <= q < j + 1 && gives_change(its, #[trigger] its[q], x) by {
                                    if v@.contains(x) && x != (idx, t) {
                                        assert(before.contains(x));
                                    }
                                    if v@.contains(x) && x == (idx, t) {
                                        assert(gives_change(its, its[j as int], x));
                                    }
                                    if exists|q: int| 0 <= q < j + 1 && gives_change(its, #[trigger] its[q], x) {
                                        let q = choose|q: int| 0 <= q < j + 1 && gives_change(its, #[trigger] its[q], x);
                                        if q < j {
                                            assert(before.contains(x));
                                        } else {
                                            assert(x == (idx, t));
                                        }
                                    }
                                }
                            }
                        },
                    }
                },
                _ => {},
            }
        }
        if v.len() == 0 {
            Ok(None)
        } else {
            Ok(Some(BpmChanges(v)))
        }
    }
}

} // verus!

verus! {

/// The beat at which line `x` (1-based) starts in a script laid out by `l`.
pub open spec fn line_start(l: Seq<(u32, u32)>, x: nat) -> int
    decreases x,
{
    if x <= 1 {
        0
    } else {
        line_start(l, (x - 1) as nat) + line_len(l, (x - 2) as nat)
    }
}

/// Layouts that record the same lengths for lines below `k` lay out those lines alike.
proof fn lemma_agree_below(a: Seq<(u32, u32)>, b: Seq<(u32, u32)>, k: nat)
    requires
        forall|key: int| key < k ==> #[trigger] layout_get(a, key) == layout_get(b, key),
    ensures
        forall|id: nat| id + 1 < k ==> #[trigger] line_len(a, id) == line_len(b, id),
        forall|x: nat| x <= k ==> #[trigger] line_start(a, x) == line_start(b, x),
{
    assert forall|id: nat| id + 1 < k implies #[trigger] line_len(a, id) == line_len(b, id) by {
        lemma_agree_len(a, b, k, id);
    }
    assert forall|x: nat| x <= k implies #[trigger] line_start(a, x) == line_start(b, x) by {
        lemma_agree_start(a, b, k, x);
    }
}

proof fn lemma_agree_len(a: Seq<(u32, u32)>, b: Seq<(u32, u32)>, k: nat, id: nat)
    requires
        forall|key: int| key < k ==> #[trigger] layout_get(a, key) == layout_get(b, key),
        id + 1 < k,
    ensures
        line_len(a, id) == line_len(b, id),
    decreases id,
{
    assert(layout_get(a, id + 1 as int) == layout_get(b, id + 1 as int));
    if id > 0 {
        lemma_agree_len(a, b, k, (id - 1) as nat);
    }
}

proof fn lemma_agree_start(a: Seq<(u32, u32)>, b: Seq<(u32, u32)>, k: nat, x: nat)
    requires
        forall|key: int| key < k ==> #[trigger] layout_get(a, key) == layout_get(b, key),
        x <= k,
    ensures
        line_start(a, x) == line_start(b, x),
    decreases x,
{
    if x > 1 {
        lemma_agree_start(a, b, k, (x - 1) as nat);
        lemma_agree_len(a, b, k, (x - 2) as nat);
    }
}

proof fn lemma_set_last_get(l: Seq<(u32, u32)>, key: int, v: int, k: int)
    requires
        l.len() > 0 ==> l.last().0 <= key,
        0 <= key <= u32::MAX,
        0 <= v <= u32::MAX,
    ensures
        layout_get(set_last(l, key, v), k) == if k == key {
            Some(v as u32)
        } else {
            layout_get(l, k)
        },
{
    let s = set_last(l, key, v);
    if l.len() > 0 && l.last().0 == key {
        assert(s.drop_last() == l.drop_last());
        if k != key {
            assert(layout_get(l, k) == layout_get(l.drop_last(), k));
        }
    } else {
        assert(s.drop_last() == l);
    }
}

/// From the last recorded line on, lines have the length last recorded.
proof fn lemma_len_after_last(l: Seq<(u32, u32)>, id: nat)
    requires
        l.len() > 0,
        l.last().0 >= 2,
        id + 1 >= l.last().0,
        layout_wf(l),
    ensures
        line_len(l, id) == l.last().1,
    decreases id,
{
    lemma_layout_get_wf(l, id + 1 as int);
    if id + 1 == l.last().0 {
        assert(l[l.len() - 1].0 == id + 1);
    } else {
        assert forall|i: int| 0 <= i < l.len() implies l[i].0 != id + 1 by {
            if i < l.len() - 1 {
                assert(l[i].0 < l[l.len() - 1].0);
            }
        }
        lemma_len_after_last(l, (id - 1) as nat);
    }
}

proof fn lemma_len_empty(id: nat)
    ensures
        line_len(seq![], id) == 4,
    decreases id,
{
    if id > 0 {
        lemma_len_empty((id - 1) as nat);
    }
}

} // verus!

verus! {

/// Lines from `x0` on have four beats, so they start four beats apart.
proof fn lemma_start_tail(l: Seq<(u32, u32)>, x0: nat, x: nat)
    requires
        x0 >= 1,
        x >= x0,
        forall|id: nat| id + 1 >= x0 ==> #[trigger] line_len(l, id) == 4,
    ensures
        line_start(l, x) == line_start(l, x0) + 4 * (x - x0),
    decreases x - x0,
{
    if x > x0 {
        lemma_start_tail(l, x0, (x - 1) as nat);
        assert(line_len(l, (x - 2) as nat) == 4);
    }
}

/// Adding a length for a line after every recorded one changes the lengths from that
/// line on only.
proof fn lemma_len_push(a: Seq<(u32, u32)>, k: u32, v: u32, id: nat)
    requires
        k >= 2,
        forall|i: int| 0 <= i < a.len() ==> a[i].0 < k,
    ensures
        line_len(a.push((k, v)), id) == if id + 1 < k {
            line_len(a, id)
        } else {
            v as int
        },
    decreases id,
{
    let b = a.push((k, v));
    assert(b.drop_last() == a);
    if id > 0 {
        lemma_len_push(a, k, v, (id - 1) as nat);
        if id + 1 > k {
            assert(layout_get(b, id + 1 as int) == layout_get(a, id + 1 as int));
            lemma_get_none_above(a, id + 1 as int);
        } else if id + 1 < k {
            assert(layout_get(b, id + 1 as int) == layout_get(a, id + 1 as int));
        }
    }
}

proof fn lemma_get_none_above(a: Seq<(u32, u32)>, key: int)
    requires
        forall|i: int| 0 <= i < a.len() ==> a[i].0 < key,
    ensures
        layout_get(a, key) is None,
    decreases a.len(),
{
    if a.len() > 0 {
        lemma_get_none_above(a.drop_last(), key);
    }
}

/// Pruning keeps every line's length, when no length is recorded for the first line.
proof fn lemma_prune_len(l: Seq<(u32, u32)>, id: nat)
    requires
        layout_wf(l),
        forall|i: int| 0 <= i < l.len() ==> l[i].0 >= 2,
    ensures
        line_len(prune(l), id) == line_len(l, id),
    decreases l.len(),
{
    if l.len() > 1 {
        let d = l.drop_last();
        assert(layout_wf(d));
        lemma_prune(d);
        let k = l.last().0;
        let v = l.last().1;
        assert(l == d.push((k, v)));
        assert forall|i: int| 0 <= i < d.len() implies d[i].0 < k by {
            assert(l[i].0 < l[l.len() - 1].0);
        }
        lemma_prune_len(d, id);
        lemma_len_push(d, k, v, id);
        if l.last().1 == l[l.len() - 2].1 {
            if id + 1 >= k {
                lemma_len_after_last(d, id);
            }
        } else {
            let pd = prune(d);
            assert forall|i: int| 0 <= i < pd.len() implies pd[i].0 < k by {
                let q = choose|q: int| 0 <= q < d.len() && #[trigger] pd[i] == d[q];
            }
            lemma_len_push(pd, k, v, id);
        }
    }
}

/// Pruning keeps every line's start, when no length is recorded for the first line.
proof fn lemma_start_prune(l: Seq<(u32, u32)>, x: nat)
    requires
        layout_wf(l),
        forall|i: int| 0 <= i < l.len() ==> l[i].0 >= 2,
    ensures
        line_start(prune(l), x) == line_start(l, x),
    decreases x,
{
    if x > 1 {
        lemma_start_prune(l, (x - 1) as nat);
        lemma_prune_len(l, (x - 2) as nat);
    }
}

} // verus!

verus! {

/// The line (1-based) in which change `j` falls, before it shortens that line.
pub open spec fn change_line(c: Seq<(u16, u32)>, j: nat) -> int {
    let (l, rem, added) = raw_layout(c, j);
    (c[j as int].0 - rem) / 4 + 1 + added
}

/// The length that change `j` leaves to the line it falls in; 0 when it falls on the
/// line's start.
pub open spec fn change_len(c: Seq<(u16, u32)>, j: nat) -> int {
    let (l, rem, added) = raw_layout(c, j);
    (c[j as int].0 - rem) % 4
}

/// The line (1-based) that change `j` starts.
pub open spec fn start_line(c: Seq<(u16, u32)>, j: nat) -> int {
    if change_len(c, j) != 0 {
        change_line(c, j) + 1
    } else {
        change_line(c, j)
    }
}

/// No change falls within the first line: each is at beat 0 or from beat 4 on.
pub open spec fn first_change_ok(c: Seq<(u16, u32)>) -> bool {
    forall|j: int| 0 <= j < c.len() ==> (#[trigger] c[j]).0 == 0 || c[j].0 >= 4
}

proof fn lemma_raw_starts(c: Seq<(u16, u32)>, n: nat)
    requires
        changes_wf(c),
        n <= c.len(),
        first_change_ok(c),
    ensures
        ({
            let (l, rem, added) = raw_layout(c, n);
            let last = if l.len() > 0 { l.last().0 as int } else { 1 };
            &&& l.len() > 0 ==> l.last().1 == 4
            &&& forall|k: int| 0 <= k < l.len() ==> l[k].0 >= 2
            &&& forall|id: nat| id + 1 >= last ==> #[trigger] line_len(l, id) == 4
            &&& forall|x: nat| x >= last ==> #[trigger] line_start(l, x) == 4 * (x - 1) - 4 * added + rem
            &&& n < c.len() ==> change_line(c, n) >= last
            &&& n < c.len() ==> change_line(c, n) >= 1 + added
            &&& added == 0 ==> rem == 0
        }),
    decreases n,
{
    lemma_raw_layout(c, n);
    let (l, rem, added) = raw_layout(c, n);
    let last = if l.len() > 0 { l.last().0 as int } else { 1 };
    if n == 0 {
        assert forall|id: nat| id + 1 >= last implies #[trigger] line_len(l, id) == 4 by {
            lemma_len_empty(id);
        }
        assert forall|x: nat| x >= last implies #[trigger] line_start(l, x) == 4 * (x - 1) - 4 * added + rem by {
            lemma_start_tail(l, 1, x);
        }
    } else {
        lemma_raw_starts(c, (n - 1) as nat);
        let (l0, rem0, added0) = raw_layout(c, (n - 1) as nat);
        let last0 = if l0.len() > 0 { l0.last().0 as int } else { 1 };
        let i = c[n - 1].0 as int;
        let line = (i - rem0) / 4 + 1 + added0;
        let len = (i - rem0) % 4;
        lemma_raw_layout(c, (n - 1) as nat);
        if len != 0 {
            assert(line >= 2) by {
                assert(c[n - 1].0 == 0 || c[n - 1].0 >= 4);
            }
            let l1 = set_last(l0, line, len);
            assert(l == set_last(l1, line + 1, 4));
            assert(layout_wf(l1));
            assert forall|key: int| key < line implies #[trigger] layout_get(l, key) == layout_get(l0, key) by {
                lemma_set_last_get(l0, line, len, key);
                lemma_set_last_get(l1, line + 1, 4, key);
            }
            lemma_agree_below(l, l0, line as nat);
            assert(line_start(l, line as nat) == 4 * (line - 1) - 4 * added0 + rem0);
            lemma_set_last_get(l0, line, len, line);
            lemma_set_last_get(l1, line + 1, 4, line);
            assert(layout_get(l, line) == Some(len as u32));
            assert(line_len(l, (line - 1) as nat) == len);
            assert(line_start(l, (line + 1) as nat) == line_start(l, line as nat) + len);
            assert(l.last() == ((line + 1) as u32, 4u32));
            assert forall|id: nat| id + 1 >= last implies #[trigger] line_len(l, id) == 4 by {
                lemma_len_after_last(l, id);
            }
            assert forall|x: nat| x >= last implies #[trigger] line_start(l, x) == 4 * (x - 1) - 4 * added + rem by {
                lemma_start_tail(l, (line + 1) as nat, x);
            }
            assert forall|k: int| 0 <= k < l.len() implies l[k].0 >= 2 by {
                if k < l.len() - 1 {
                    if l1.len() > 0 && k == l1.len() - 1 {
                    } else {
                        assert(l[k] == l0[k]);
                    }
                }
            }
        }
        if n < c.len() {
            let i2 = c[n as int].0 as int;
            assert(i < i2);
            assert((i - rem) / 4 <= (i2 - rem) / 4);
        }
    }
}

} // verus!

verus! {

proof fn lemma_line_mono(c: Seq<(u16, u32)>, n: nat)
    requires
        changes_wf(c),
        n + 1 < c.len(),
    ensures
        change_line(c, n + 1) >= start_line(c, n),
        start_line(c, n) >= change_line(c, n),
{
    lemma_raw_layout(c, n);
    let (l, rem, added) = raw_layout(c, n);
    let i = c[n as int].0 as int;
    let i2 = c[n + 1 as int].0 as int;
    assert(i < i2);
    assert(rem <= i);
}

proof fn lemma_line_after(c: Seq<(u16, u32)>, j: nat, n: nat)
    requires
        changes_wf(c),
        j < n < c.len(),
    ensures
        change_line(c, n) >= start_line(c, j),
    decreases n - j,
{
    lemma_line_mono(c, (n - 1) as nat);
    if n - 1 > j {
        lemma_line_after(c, j, (n - 1) as nat);
        lemma_line_mono(c, (n - 1) as nat);
    }
}

/// Changes after change `j` record lengths for its start line and later ones only.
proof fn lemma_raw_keeps(c: Seq<(u16, u32)>, j: nat, n: nat)
    requires
        changes_wf(c),
        first_change_ok(c),
        j < n <= c.len(),
    ensures
        forall|key: int|
            key < start_line(c, j) ==> #[trigger] layout_get(raw_layout(c, n).0, key) == layout_get(
                raw_layout(c, j + 1).0,
                key,
            ),
    decreases n - j,
{
    if n > j + 1 {
        lemma_raw_keeps(c, j, (n - 1) as nat);
        lemma_line_after(c, j, (n - 1) as nat);
        lemma_raw_layout(c, (n - 1) as nat);
        lemma_raw_starts(c, (n - 1) as nat);
        let (l0, rem0, added0) = raw_layout(c, (n - 1) as nat);
        let line = change_line(c, (n - 1) as nat);
        let len = change_len(c, (n - 1) as nat);
        if len != 0 {
            let l1 = set_last(l0, line, len);
            assert(layout_wf(l1));
            assert forall|key: int| key < start_line(c, j) implies #[trigger] layout_get(
                raw_layout(c, n).0,
                key,
            ) == layout_get(raw_layout(c, j + 1).0, key) by {
                lemma_set_last_get(l0, line, len, key);
                lemma_set_last_get(l1, line + 1, 4, key);
            }
        }
    }
}

proof fn lemma_start_mono(l: Seq<(u32, u32)>, a: nat, b: nat)
    requires
        layout_wf(l),
        1 <= a <= b,
    ensures
        line_start(l, a) + (b - a) <= line_start(l, b),
    decreases b - a,
{
    if a < b {
        lemma_start_mono(l, a, (b - 1) as nat);
        lemma_line_len_pos(l, (b - 2) as nat);
    }
}

proof fn lemma_walk_from(l: Seq<(u32, u32)>, x: nat, id: nat)
    requires
        layout_wf(l),
        id + 1 <= x,
    ensures
        walk(l, line_start(l, x) - line_start(l, id + 1), id) == (x, 0int),
    decreases x - id - 1,
{
    lemma_line_len_pos(l, id);
    if id + 1 < x {
        lemma_start_mono(l, id + 2, x);
        assert(line_start(l, id + 2) == line_start(l, id + 1) + line_len(l, id));
        lemma_walk_from(l, x, id + 1);
    }
}

/// A beat at which a line starts sits at position 0 of that line.
pub proof fn lemma_walk_at_start(l: Seq<(u32, u32)>, x: nat)
    requires
        layout_wf(l),
        x >= 1,
    ensures
        entry_pos_of(l, line_start(l, x)) == (x, 0int),
{
    lemma_walk_from(l, x, 0);
}

/// Each change starts a line of the layout the changes induce: it sits at position 0
/// of line `start_line`, and that line starts at the change's beat.
pub proof fn lemma_change_starts_line(c: Seq<(u16, u32)>, j: nat)
    requires
        changes_wf(c),
        first_change_ok(c),
        j < c.len(),
    ensures
        line_start(derived_layout(c), start_line(c, j) as nat) == c[j as int].0,
        entry_pos_of(derived_layout(c), c[j as int].0 as int) == (start_line(c, j) as nat, 0int),
        start_line(c, j) >= 1,
{
    let n = c.len();
    lemma_raw_starts(c, j);
    lemma_raw_starts(c, j + 1);
    lemma_raw_layout(c, j);
    lemma_raw_layout(c, j + 1);
    lemma_raw_layout(c, n);
    lemma_raw_starts(c, n);
    let x = start_line(c, j);
    let (l1, rem1, added1) = raw_layout(c, j + 1);
    let (l0, rem0, added0) = raw_layout(c, j);
    let i = c[j as int].0 as int;
    assert(i - rem0 == 4 * ((i - rem0) / 4) + (i - rem0) % 4);
    assert(line_start(l1, x as nat) == i);
    lemma_raw_keeps(c, j, n);
    let raw = raw_layout(c, n).0;
    lemma_agree_below(raw, l1, x as nat);
    lemma_start_prune(raw, x as nat);
    lemma_prune(raw);
    lemma_walk_at_start(derived_layout(c), x as nat);
}

} // verus!

verus! {

proof fn lemma_split_concat(a: Seq<char>, b: Seq<char>)
    ensures
        split_lines(a + seq!['\n'] + b) == split_lines(a) + split_lines(b),
    decreases b.len(),
{
    let t = a + seq!['\n'] + b;
    if b.len() == 0 {
        assert(t.drop_last() == a);
        assert(t == a + seq!['\n']);
        assert(split_lines(b) == seq![Seq::<char>::empty()]);
    } else {
        let b0 = b.drop_last();
        lemma_split_concat(a, b0);
        assert(t.drop_last() == a + seq!['\n'] + b0);
        lemma_split_lines_len(a);
        lemma_split_lines_len(b0);
        let x = split_lines(a);
        let y = split_lines(b0);
        if b.last() != '\n' {
            assert((x + y).update((x + y).len() - 1, (x + y).last().push(b.last())) == x + y.update(
                y.len() - 1,
                y.last().push(b.last()),
            ));
        } else {
            assert((x + y).push(seq![]) == x + y.push(seq![]));
        }
    }
}

proof fn lemma_split_single(t: Seq<char>)
    requires
        forall|i: int| 0 <= i < t.len() ==> t[i] != '\n',
    ensures
        split_lines(t) == seq![t],
    decreases t.len(),
{
    if t.len() > 0 {
        lemma_split_single(t.drop_last());
        assert(t[t.len() - 1] != '\n');
        assert(t.drop_last().push(t.last()) == t);
        let s0 = split_lines(t.drop_last());
        assert(s0 == seq![t.drop_last()]);
        assert(s0.len() - 1 == 0);
        assert(s0.last() == t.drop_last());
        assert(split_lines(t) == s0.update(s0.len() - 1, s0.last().push(t.last())));
        assert(seq![t.drop_last()].update(0, t.drop_last().push(t.last())) =~= seq![t]);
    } else {
        assert(t =~= Seq::<char>::empty());
    }
}

pub open spec fn no_break(ls: Seq<Seq<char>>) -> bool {
    forall|k: int, i: int| 0 <= k < ls.len() && 0 <= i < ls[k].len() ==> (#[trigger] ls[k][i]) != '\n'
}

proof fn lemma_split_join(ls: Seq<Seq<char>>)
    requires
        ls.len() >= 1,
        no_break(ls),
    ensures
        split_lines(join_lines(ls)) == ls,
    decreases ls.len(),
{
    let last = ls.last();
    assert forall|i: int| 0 <= i < last.len() implies last[i] != '\n' by {
        assert(ls[ls.len() - 1][i] == last[i]);
    }
    lemma_split_single(last);
    if ls.len() == 1 {
        assert(ls == seq![last]);
    } else {
        let d = ls.drop_last();
        assert forall|k: int, i: int| 0 <= k < d.len() && 0 <= i < d[k].len() implies (#[trigger] d[k][i]) != '\n' by {
            assert(d[k] == ls[k]);
        }
        lemma_split_join(d);
        lemma_split_concat(join_lines(d), last);
        assert(d + seq![last] == ls);
    }
}

/// Decimal text holds digits only.
proof fn lemma_dec_digits(n: nat)
    ensures
        forall|i: int| 0 <= i < dec(n).len() ==> #[trigger] crate::text::digit_value(dec(n)[i]) is Some,
        dec(n).len() > 0,
{
    crate::text::lemma_dec_round_trip(n);
}

proof fn lemma_find_after_digits(d: Seq<char>, c: char, rest: Seq<char>)
    requires
        forall|i: int| 0 <= i < d.len() ==> #[trigger] crate::text::digit_value(d[i]) is Some,
        crate::text::digit_value(c) is None,
    ensures
        find_char(d + seq![c] + rest, c) == Some(d.len() as int),
    decreases rest.len(),
{
    let t = d + seq![c] + rest;
    if rest.len() == 0 {
        lemma_find_none_digits(d, c);
        assert(t.drop_last() == d);
    } else {
        lemma_find_after_digits(d, c, rest.drop_last());
        assert(t.drop_last() == d + seq![c] + rest.drop_last());
    }
}

proof fn lemma_find_none_digits(d: Seq<char>, c: char)
    requires
        forall|i: int| 0 <= i < d.len() ==> #[trigger] crate::text::digit_value(d[i]) is Some,
        crate::text::digit_value(c) is None,
    ensures
        find_char(d, c) is None,
    decreases d.len(),
{
    if d.len() > 0 {
        assert forall|i: int| 0 <= i < d.drop_last().len() implies #[trigger] crate::text::digit_value(d.drop_last()[i]) is Some by {
            assert(d.drop_last()[i] == d[i]);
        }
        lemma_find_none_digits(d.drop_last(), c);
        assert(crate::text::digit_value(d[d.len() - 1]) is Some);
    }
}

proof fn lemma_dec_u32(n: nat)
    requires
        n <= u32::MAX,
    ensures
        dec_u32(dec(n)) == Some(n as u32),
{
    crate::text::lemma_dec_round_trip(n);
}

/// A layout line reads back as its pair.
proof fn lemma_parse_layout_line(p: (u32, u32))
    requires
        p.1 >= 1,
    ensures
        parse_item(layout_line(p)) == Some(LineItem::Len(p.0, p.1)),
        trim(layout_line(p)) == layout_line(p),
{
    let a = dec(p.0 as nat);
    let b = dec(p.1 as nat);
    let l = layout_line(p);
    lemma_dec_digits(p.0 as nat);
    lemma_dec_digits(p.1 as nat);
    lemma_dec_u32(p.0 as nat);
    lemma_dec_u32(p.1 as nat);
    let body = a + seq![':'] + b;
    assert(l == body + seq![',']);
    assert(l.drop_last() == body);
    lemma_find_after_digits(a, ':', b);
    assert(body.take(a.len() as int) == a);
    assert(body.skip(a.len() + 1 as int) == b);
    assert(l[0] == a[0]);
    assert(crate::text::digit_value(a[0]) is Some);
    lemma_trim_plain(l);
}

/// Text that starts and ends with neither spaces nor line breaks is its own trim.
proof fn lemma_trim_plain(l: Seq<char>)
    requires
        l.len() > 0,
        !crate::text::is_space(l[0]),
        !crate::text::is_space(l.last()),
    ensures
        trim(l) == l,
{
    assert(crate::text::trim_start(l) == l);
}

/// A tempo line reads back as its line and tempo.
proof fn lemma_parse_bpm_line(line: nat, t: u32)
    requires
        line <= u32::MAX,
    ensures
        parse_item(bpm_line(line, t)) == Some(LineItem::Tempo(line as u32, t)),
        trim(bpm_line(line, t)) == bpm_line(line, t),
{
    let a = dec(line);
    let w = dec((t / 10) as nat);
    let d = digit_char((t % 10) as nat);
    let l = bpm_line(line, t);
    lemma_dec_digits(line);
    lemma_dec_digits((t / 10) as nat);
    lemma_dec_u32(line);
    crate::text::lemma_dec_round_trip((t / 10) as nat);
    crate::text::lemma_digit((t % 10) as nat);
    let rest = w + seq!['.', d];
    let body = a + seq![':'] + rest;
    assert(l == bpm_tag() + body + seq![',']);
    assert(l.take(5) == bpm_tag());
    assert(l.subrange(5, l.len() - 1) == body);
    assert(body == a + seq![':'] + rest);
    lemma_find_after_digits(a, ':', rest);
    assert(body.take(a.len() as int) == a);
    assert(body.skip(a.len() + 1 as int) == rest);
    assert(rest == w + seq!['.'] + seq![d]);
    lemma_find_after_digits(w, '.', seq![d]);
    assert(rest.take(w.len() as int) == w);
    assert(rest[w.len() + 1 as int] == d);
    assert((t / 10) * 10 + t % 10 == t);
    lemma_trim_plain(l);
}

} // verus!

verus! {

proof fn lemma_line_chars(p: (u32, u32), line: nat, t: u32)
    ensures
        forall|i: int| 0 <= i < layout_line(p).len() ==> #[trigger] layout_line(p)[i] != '\n',
        forall|i: int| 0 <= i < bpm_line(line, t).len() ==> #[trigger] bpm_line(line, t)[i] != '\n',
{
    let a = dec(p.0 as nat);
    let b = dec(p.1 as nat);
    lemma_dec_digits(p.0 as nat);
    lemma_dec_digits(p.1 as nat);
    assert forall|i: int| 0 <= i < layout_line(p).len() implies #[trigger] layout_line(p)[i] != '\n' by {
        if i < a.len() {
            assert(layout_line(p)[i] == a[i]);
            assert(crate::text::digit_value(a[i]) is Some);
        } else if a.len() < i < a.len() + 1 + b.len() {
            assert(layout_line(p)[i] == b[i - a.len() - 1]);
            assert(crate::text::digit_value(b[i - a.len() - 1]) is Some);
        } else if i == a.len() {
            assert(layout_line(p)[i] == ':');
        } else {
            assert(layout_line(p)[i] == ',');
        }
    }
    let x = dec(line);
    let w = dec((t / 10) as nat);
    lemma_dec_digits(line);
    lemma_dec_digits((t / 10) as nat);
    crate::text::lemma_digit((t % 10) as nat);
    assert forall|i: int| 0 <= i < bpm_line(line, t).len() implies #[trigger] bpm_line(line, t)[i] != '\n' by {
        let l = bpm_line(line, t);
        if i < 5 {
            assert(l[i] == bpm_tag()[i]);
        } else if 5 <= i < 5 + x.len() {
            assert(l[i] == x[i - 5]);
            assert(crate::text::digit_value(x[i - 5]) is Some);
        } else if i == 5 + x.len() {
            assert(l[i] == ':');
        } else if 6 + x.len() <= i < 6 + x.len() + w.len() {
            assert(l[i] == w[i - 6 - x.len()]);
            assert(crate::text::digit_value(w[i - 6 - x.len()]) is Some);
        } else if i == 6 + x.len() + w.len() {
            assert(l[i] == '.');
        } else if i == 7 + x.len() + w.len() {
            assert(l[i] == digit_char((t % 10) as nat));
        } else {
            assert(l[i] == ',');
        }
    }
}

proof fn lemma_last_len_prefix(items: Seq<LineItem>, m: int, key: int)
    requires
        0 <= m <= items.len(),
        forall|k: int| m <= k < items.len() ==> !(#[trigger] items[k] is Len),
    ensures
        last_len(items, key) == last_len(items.take(m), key),
    decreases items.len() - m,
{
    if m < items.len() {
        let d = items.drop_last();
        assert(d.take(m) == items.take(m));
        assert(!(items[items.len() - 1] is Len));
        lemma_last_len_prefix(d, m, key);
    } else {
        assert(items.take(m) == items);
    }
}

proof fn lemma_last_len_layout(items: Seq<LineItem>, l: Seq<(u32, u32)>, key: int)
    requires
        items.len() == l.len(),
        forall|k: int| 0 <= k < l.len() ==> #[trigger] items[k] == LineItem::Len(l[k].0, l[k].1),
    ensures
        last_len(items, key) == layout_get(l, key),
    decreases l.len(),
{
    if l.len() > 0 {
        assert(items[items.len() - 1] == LineItem::Len(l.last().0, l.last().1));
        lemma_last_len_layout(items.drop_last(), l.drop_last(), key);
    }
}

proof fn lemma_same_changes(a: Seq<(u16, u32)>, b: Seq<(u16, u32)>)
    requires
        changes_wf(a),
        changes_wf(b),
        forall|p: (u16, u32)| a.contains(p) <==> b.contains(p),
    ensures
        a == b,
    decreases a.len() + b.len(),
{
    if a.len() == 0 {
        if b.len() > 0 {
            assert(b.contains(b[0]));
        }
        assert(b =~= a);
    } else if b.len() == 0 {
        assert(a.contains(a[0]));
    } else {
        let x = a.last();
        let y = b.last();
        assert(a.contains(x));
        assert(b.contains(y));
        let i = choose|i: int| 0 <= i < b.len() && b[i] == x;
        let j = choose|j: int| 0 <= j < a.len() && a[j] == y;
        if i < b.len() - 1 {
            assert(b[i].0 < b[b.len() - 1].0);
            if j < a.len() - 1 {
                assert(a[j].0 < a[a.len() - 1].0);
            }
        }
        if j < a.len() - 1 {
            assert(a[j].0 < a[a.len() - 1].0);
        }
        assert(x == y);
        let da = a.drop_last();
        let db = b.drop_last();
        assert forall|p: (u16, u32)| da.contains(p) <==> db.contains(p) by {
            if da.contains(p) {
                let k = choose|k: int| 0 <= k < da.len() && da[k] == p;
                assert(a[k].0 < a[a.len() - 1].0);
                assert(a.contains(p));
                let q = choose|q: int| 0 <= q < b.len() && b[q] == p;
                assert(q != b.len() - 1);
                assert(db[q] == p);
            }
            if db.contains(p) {
                let k = choose|k: int| 0 <= k < db.len() && db[k] == p;
                assert(b[k].0 < b[b.len() - 1].0);
                assert(b.contains(p));
                let q = choose|q: int| 0 <= q < a.len() && a[q] == p;
                assert(q != a.len() - 1);
                assert(da[q] == p);
            }
        }
        lemma_same_changes(da, db);
        assert(a =~= da.push(x));
        assert(b =~= db.push(y));
    }
}

} // verus!

verus! {

/// The lines of the layout part of a tempo script: one per pair, or one empty line.
pub open spec fn layout_part(c: Seq<(u16, u32)>) -> Seq<Seq<char>> {
    if derived_layout(c).len() > 0 {
        layout_lines(derived_layout(c))
    } else {
        seq![seq![]]
    }
}

proof fn lemma_derived_facts(c: Seq<(u16, u32)>)
    requires
        changes_wf(c),
        first_change_ok(c),
    ensures
        layout_wf(derived_layout(c)),
        forall|k: int| 0 <= k < derived_layout(c).len() ==> (#[trigger] derived_layout(c)[k]).0 >= 2,
{
    let n = c.len();
    lemma_raw_layout(c, n);
    lemma_raw_starts(c, n);
    let raw = raw_layout(c, n).0;
    lemma_prune(raw);
    let l = derived_layout(c);
    assert forall|k: int| 0 <= k < l.len() implies (#[trigger] l[k]).0 >= 2 by {
        let i = choose|i: int| 0 <= i < raw.len() && #[trigger] prune(raw)[k] == raw[i];
    }
}

proof fn lemma_script_lines(c: Seq<(u16, u32)>)
    requires
        changes_wf(c),
        first_change_ok(c),
        c.len() > 0,
    ensures
        split_lines(tempo_script(c)) == layout_part(c) + bpm_lines(c) + seq![Seq::<char>::empty()],
{
    let l = derived_layout(c);
    let ll = layout_lines(l);
    let bl = bpm_lines(c);
    let a = join_lines(ll);
    let b = join_lines(bl);
    let e = Seq::<char>::empty();
    assert(tempo_script(c) == (a + seq!['\n'] + b) + seq!['\n'] + e);
    lemma_split_concat(a + seq!['\n'] + b, e);
    lemma_split_concat(a, b);
    assert(split_lines(e) == seq![e]);
    assert forall|k: int, i: int| 0 <= k < ll.len() && 0 <= i < ll[k].len() implies (#[trigger] ll[k][i]) != '\n' by {
        lemma_line_chars(l[k], 0, 0);
    }
    assert forall|k: int, i: int| 0 <= k < bl.len() && 0 <= i < bl[k].len() implies (#[trigger] bl[k][i]) != '\n' by {
        lemma_line_chars((0, 0), entry_pos_of(l, c[k].0 as int).0, c[k].1);
    }
    if ll.len() > 0 {
        lemma_split_join(ll);
    } else {
        assert(a == e);
    }
    lemma_split_join(bl);
}

proof fn lemma_change_line_fits(c: Seq<(u16, u32)>, j: int)
    requires
        changes_wf(c),
        first_change_ok(c),
        0 <= j < c.len(),
    ensures
        entry_pos_of(derived_layout(c), c[j].0 as int).0 == start_line(c, j as nat),
        1 <= start_line(c, j as nat) <= 65536,
{
    lemma_derived_facts(c);
    lemma_change_starts_line(c, j as nat);
    lemma_walk_bound(derived_layout(c), c[j].0 as int, 0);
}

/// The items a tempo script reads as: its layout pairs (or one blank), its tempo lines
/// at the lines the changes start, and a final blank.
proof fn lemma_script_items(c: Seq<(u16, u32)>)
    requires
        changes_wf(c),
        first_change_ok(c),
        c.len() > 0,
    ensures
        ({
            let items = script_items(tempo_script(c));
            let m = layout_part(c).len();
            let l = derived_layout(c);
            &&& items is Some
            &&& items->0.len() == m + c.len() + 1
            &&& forall|k: int| 0 <= k < m ==> #[trigger] items->0[k] == if l.len() > 0 {
                LineItem::Len(l[k].0, l[k].1)
            } else {
                LineItem::Blank
            }
            &&& forall|j: int| 0 <= j < c.len() ==> #[trigger] items->0[m + j] == LineItem::Tempo(
                start_line(c, j as nat) as u32,
                c[j].1,
            )
            &&& items->0[m + c.len() as int] == LineItem::Blank
        }),
{
    lemma_script_lines(c);
    lemma_derived_facts(c);
    let l = derived_layout(c);
    let lines = split_lines(tempo_script(c));
    let lp = layout_part(c);
    let bl = bpm_lines(c);
    let m = lp.len();
    let e = Seq::<char>::empty();
    let want = |k: int|
        if k < m {
            if l.len() > 0 {
                LineItem::Len(l[k].0, l[k].1)
            } else {
                LineItem::Blank
            }
        } else if k < m + c.len() {
            LineItem::Tempo(start_line(c, (k - m) as nat) as u32, c[k - m].1)
        } else {
            LineItem::Blank
        };
    assert forall|k: int| 0 <= k < lines.len() implies parse_item(trim(#[trigger] lines[k])) == Some(want(k)) by {
        if k < m {
            if l.len() > 0 {
                assert(lines[k] == layout_line(l[k]));
                lemma_parse_layout_line(l[k]);
            } else {
                assert(lines[k] == e);
                assert(trim(e) == e);
            }
        } else if k < m + c.len() {
            let j = k - m;
            assert(lines[k] == bl[j]);
            lemma_change_line_fits(c, j);
            lemma_parse_bpm_line(start_line(c, j as nat) as nat, c[j].1);
        } else {
            assert(lines[k] == e);
            assert(trim(e) == e);
        }
    }
    assert forall|i: int| 0 <= i < lines.len() implies (#[trigger] parse_item(trim(lines[i]))) is Some by {
        assert(parse_item(trim(lines[i])) == Some(want(i)));
    }
    let items = script_items(tempo_script(c))->0;
    assert forall|k: int| 0 <= k < m implies #[trigger] items[k] == want(k) by {
        assert(parse_item(trim(lines[k])) == Some(want(k)));
    }
    assert forall|j: int| 0 <= j < c.len() implies #[trigger] items[m + j] == want(m + j) by {
        assert(parse_item(trim(lines[m + j])) == Some(want(m + j)));
    }
    assert(parse_item(trim(lines[m + c.len() as int])) == Some(want(m + c.len() as int)));
}

} // verus!

verus! {

proof fn lemma_item_len(items: Seq<LineItem>, l: Seq<(u32, u32)>, id: nat)
    requires
        forall|key: int| #[trigger] last_len(items, key) == layout_get(l, key),
        layout_get(l, 1) is None,
    ensures
        item_line_len(items, id) == line_len(l, id),
    decreases id,
{
    assert(last_len(items, id + 1 as int) == layout_get(l, id + 1 as int));
    if id > 0 {
        lemma_item_len(items, l, (id - 1) as nat);
    }
}

proof fn lemma_item_start(items: Seq<LineItem>, l: Seq<(u32, u32)>, x: nat)
    requires
        forall|key: int| #[trigger] last_len(items, key) == layout_get(l, key),
        layout_get(l, 1) is None,
    ensures
        item_line_start(items, x) == line_start(l, x),
    decreases x,
{
    if x > 1 {
        lemma_item_start(items, l, (x - 1) as nat);
        lemma_item_len(items, l, (x - 2) as nat);
    }
}

proof fn lemma_items_layout(c: Seq<(u16, u32)>)
    requires
        changes_wf(c),
        c.len() > 0,
        first_change_ok(c),
    ensures
        forall|key: int| #[trigger] last_len(script_items(tempo_script(c))->0, key) == layout_get(
            derived_layout(c),
            key,
        ),
{
    lemma_script_items(c);
    let items = script_items(tempo_script(c))->0;
    let l = derived_layout(c);
    let m = layout_part(c).len() as int;
    let n = c.len() as int;
    assert forall|k: int| m <= k < items.len() implies !(#[trigger] items[k] is Len) by {
        if k < m + n {
            assert(items[m + (k - m)] is Tempo);
        }
    }
    let t = items.take(m);
    if l.len() > 0 {
        assert forall|k: int| 0 <= k < l.len() implies #[trigger] t[k] == LineItem::Len(l[k].0, l[k].1) by {
            assert(t[k] == items[k]);
        }
    } else {
        assert(t[0] == items[0]);
        assert(t.drop_last().len() == 0);
    }
    assert(m <= items.len());
    assert(t.len() == m);
    assert forall|key: int| #[trigger] last_len(items, key) == layout_get(l, key) by {
        lemma_last_len_prefix(items, m, key);
        assert(last_len(items, key) == last_len(t, key));
        if l.len() > 0 {
            assert(m == l.len());
            lemma_last_len_layout(t, l, key);
        } else {
            assert(t.last() == LineItem::Blank);
            assert(last_len(t, key) == last_len(t.drop_last(), key));
        }
    }
}

proof fn lemma_items_starts(c: Seq<(u16, u32)>, j: int)
    requires
        changes_wf(c),
        c.len() > 0,
        first_change_ok(c),
        0 <= j < c.len(),
    ensures
        item_line_start(script_items(tempo_script(c))->0, start_line(c, j as nat) as nat) == c[j].0
            as int,
        script_items(tempo_script(c))->0[layout_part(c).len() + j] == LineItem::Tempo(
            start_line(c, j as nat) as u32,
            c[j].1,
        ),
        1 <= start_line(c, j as nat) <= 65536,
{
    lemma_script_items(c);
    lemma_items_layout(c);
    lemma_derived_facts(c);
    let items = script_items(tempo_script(c))->0;
    let l = derived_layout(c);
    lemma_layout_get_wf(l, 1);
    lemma_change_line_fits(c, j);
    lemma_change_starts_line(c, j as nat);
    lemma_item_start(items, l, start_line(c, j as nat) as nat);
}

/// Reading back the tempo script of some changes gives those changes, when none falls
/// within the first line (beats 1 to 3): the script reads without error, has tempo
/// lines, and the only ordered changes that its tempo lines give are these.
pub proof fn lemma_tempo_script_round_trip(c: Seq<(u16, u32)>)
    requires
        changes_wf(c),
        c.len() > 0,
        first_change_ok(c),
    ensures
        script_items(tempo_script(c)) is Some,
        tempo_lines_ok(script_items(tempo_script(c))->0),
        has_tempo_line(script_items(tempo_script(c))->0),
        forall|c2: Seq<(u16, u32)>|
            changes_wf(c2) && (forall|p: (u16, u32)|
                c2.contains(p) <==> is_tempo_of(script_items(tempo_script(c))->0, p)) ==> c2 == c,
{
    lemma_script_items(c);
    let items = script_items(tempo_script(c))->0;
    let m = layout_part(c).len() as int;
    let n = c.len() as int;
    assert forall|k: int| 0 <= k < items.len() implies start_fits(items, #[trigger] items[k]) by {
        if m <= k < m + n {
            lemma_items_starts(c, k - m);
        }
    }
    assert forall|k1: int, k2: int|
        0 <= k1 < k2 < items.len() implies starts_differ(items, #[trigger] items[k1], #[trigger] items[k2]) by {
        if m <= k1 < m + n && m <= k2 < m + n {
            lemma_items_starts(c, k1 - m);
            lemma_items_starts(c, k2 - m);
            assert(c[k1 - m].0 < c[k2 - m].0);
        }
    }
    lemma_items_starts(c, 0);
    assert(items[m + 0] is Tempo);
    assert forall|p: (u16, u32)| c.contains(p) <==> is_tempo_of(items, p) by {
        if c.contains(p) {
            let j = choose|j: int| 0 <= j < n && c[j] == p;
            lemma_items_starts(c, j);
            assert(gives_change(items, items[m + j], p));
        }
        if is_tempo_of(items, p) {
            let k = choose|k: int| 0 <= k < items.len() && gives_change(items, #[trigger] items[k], p);
            assert(m <= k < m + n) by {
                if k < m {
                    assert(!(items[k] is Tempo));
                }
            }
            lemma_items_starts(c, k - m);
            assert(p == c[k - m]);
        }
    }
    assert forall|c2: Seq<(u16, u32)>|
        changes_wf(c2) && (forall|p: (u16, u32)| c2.contains(p) <==> is_tempo_of(items, p)) implies c2
        == c by {
        lemma_same_changes(c2, c);
    }
}

} // verus!
