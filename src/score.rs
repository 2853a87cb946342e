//! Per-beat note timelines and their script form.

use vstd::prelude::*;

use crate::layout::{layout_wf, line_len, lemma_line_len_pos, BeatsLayout};
use crate::text::{chars_of, is_space, string_of, ParseError};

verus! {

/// One beat slot of a timeline.
#[derive(Debug, Clone, Copy, PartialEq, Eq, Structural)]
pub enum ScoreEntry {
    /// A normal note, written `O`.
    O,
    /// A blank slot, written `-`.
    B,
    /// A heavy note, written `S`.
    S,
}

/// The character that stands for an entry.
pub open spec fn entry_char(e: ScoreEntry) -> char {
    match e {
        ScoreEntry::O => 'O',
        ScoreEntry::B => '-',
        ScoreEntry::S => 'S',
    }
}

/// The entry that a character stands for, if any.
pub open spec fn entry_of_char(c: char) -> Option<ScoreEntry> {
    if c == 'O' {
        Some(ScoreEntry::O)
    } else if c == '-' {
        Some(ScoreEntry::B)
    } else if c == 'S' {
        Some(ScoreEntry::S)
    } else {
        None
    }
}

impl ScoreEntry {
    pub fn to_char(&self) -> (c: char)
        ensures
            c == entry_char(*self),
            entry_of_char(c) == Some(*self),
    {
        match self {
            ScoreEntry::O => 'O',
            ScoreEntry::B => '-',
            ScoreEntry::S => 'S',
        }
    }

    pub fn from_char(c: char) -> (r: Option<ScoreEntry>)
        ensures
            r == entry_of_char(c),
            r matches Some(e) ==> entry_char(e) == c,
    {
        if c == 'O' {
            Some(ScoreEntry::O)
        } else if c == '-' {
            Some(ScoreEntry::B)
        } else if c == 'S' {
            Some(ScoreEntry::S)
        } else {
            None
        }
    }

    /// The one-character text of the entry.
    pub fn to_string(&self) -> (r: String)
        ensures
            r@ == seq![entry_char(*self)],
    {
        let v = vec![self.to_char()];
        string_of(&v)
    }
}

/// A timeline: one entry per beat slot.
#[derive(Debug, Clone)]
pub struct ScoreData(pub Vec<ScoreEntry>);

impl View for ScoreData {
    type V = Seq<ScoreEntry>;

    open spec fn view(&self) -> Seq<ScoreEntry> {
        self.0@
    }
}

/// The compact text of a timeline: one character per entry.
pub open spec fn compact_text(s: Seq<ScoreEntry>) -> Seq<char> {
    s.map_values(|e: ScoreEntry| entry_char(e))
}

} // verus!

verus! {

/// Length of the run of non-blank entries that ends just before position `n`.
pub open spec fn open_len(s: Seq<ScoreEntry>, n: int) -> nat
    decreases n,
{
    if n <= 0 {
        0
    } else if s[n - 1] == ScoreEntry::B {
        0
    } else {
        open_len(s, n - 1) + 1
    }
}

/// The runs of ten or more non-blank entries that a blank closes within the first `n`
/// entries, as (start, length), in order.
pub open spec fn closed_long_runs(s: Seq<ScoreEntry>, n: int) -> Seq<(int, int)>
    decreases n,
{
    if n <= 0 {
        seq![]
    } else if s[n - 1] == ScoreEntry::B && open_len(s, n - 1) >= 10 {
        closed_long_runs(s, n - 1).push((n - 1 - open_len(s, n - 1), open_len(s, n - 1) as int))
    } else {
        closed_long_runs(s, n - 1)
    }
}

/// Every maximal run of ten or more non-blank entries, as (start, length), in order.
pub open spec fn long_runs(s: Seq<ScoreEntry>) -> Seq<(int, int)> {
    let n = s.len() as int;
    let o = open_len(s, n);
    if o >= 10 {
        closed_long_runs(s, n).push((n - o, o as int))
    } else {
        closed_long_runs(s, n)
    }
}

/// The ten entries from position `i` on are all notes.
pub open spec fn ten_notes_at(s: Seq<ScoreEntry>, i: int) -> bool {
    0 <= i && i + 10 <= s.len() && forall|j: int| i <= j < i + 10 ==> s[j] != ScoreEntry::B
}

/// Some ten consecutive entries are all notes.
pub open spec fn has_long_run(s: Seq<ScoreEntry>) -> bool {
    exists|i: int| #[trigger] ten_notes_at(s, i)
}

pub open spec fn pairs_view(v: Seq<(usize, usize)>) -> Seq<(int, int)> {
    v.map_values(|p: (usize, usize)| (p.0 as int, p.1 as int))
}

proof fn lemma_open_len_window(s: Seq<ScoreEntry>, m: int, k: int)
    requires
        0 <= k <= m <= s.len(),
    ensures
        open_len(s, m) >= k <==> forall|j: int| m - k <= j < m ==> s[j] != ScoreEntry::B,
    decreases k,
{
    if k > 0 {
        lemma_open_len_window(s, m - 1, k - 1);
        if open_len(s, m) >= k {
            assert(s[m - 1] != ScoreEntry::B);
        }
        if forall|j: int| m - k <= j < m ==> s[j] != ScoreEntry::B {
            assert(s[m - 1] != ScoreEntry::B);
            assert forall|j: int| (m - 1) - (k - 1) <= j < m - 1 implies s[j] != ScoreEntry::B by {}
        }
    }
}

proof fn lemma_open_len_le(s: Seq<ScoreEntry>, m: int)
    requires
        0 <= m <= s.len(),
    ensures
        open_len(s, m) <= m,
    decreases m,
{
    if m > 0 {
        lemma_open_len_le(s, m - 1);
    }
}

proof fn lemma_closed_implies_window(s: Seq<ScoreEntry>, n: int)
    requires
        0 <= n <= s.len(),
        closed_long_runs(s, n).len() > 0,
    ensures
        has_long_run(s),
    decreases n,
{
    if s[n - 1] == ScoreEntry::B && open_len(s, n - 1) >= 10 {
        lemma_open_len_le(s, n - 1);
        lemma_open_len_window(s, n - 1, 10);
        assert(ten_notes_at(s, n - 1 - 10));
    } else {
        lemma_closed_implies_window(s, n - 1);
    }
}

proof fn lemma_window_persists(s: Seq<ScoreEntry>, m: int, n: int)
    requires
        0 <= m <= n <= s.len(),
        open_len(s, m) >= 10,
    ensures
        closed_long_runs(s, n).len() > 0 || open_len(s, n) >= 10,
    decreases n - m,
{
    if n > m {
        lemma_window_persists(s, m, n - 1);
    }
}

/// A timeline has a maximal run of ten or more notes exactly when it has ten
/// consecutive notes.
pub proof fn lemma_long_runs_iff(s: Seq<ScoreEntry>)
    ensures
        long_runs(s).len() > 0 <==> has_long_run(s),
{
    let n = s.len() as int;
    if long_runs(s).len() > 0 {
        if open_len(s, n) >= 10 {
            lemma_open_len_le(s, n);
            lemma_open_len_window(s, n, 10);
            assert(ten_notes_at(s, n - 10));
        } else {
            lemma_closed_implies_window(s, n);
        }
    }
    if has_long_run(s) {
        let i = choose|i: int| #[trigger] ten_notes_at(s, i);
        lemma_open_len_window(s, i + 10, 10);
        lemma_window_persists(s, i + 10, n);
    }
}

impl ScoreData {
    /// Reports every maximal run of ten or more notes; a timeline without one is valid.
    pub fn validate(&self) -> (r: Result<(), crate::song::InvalidMapError>)
        ensures
            r is Ok <==> !has_long_run(self@),
            r is Ok <==> long_runs(self@).len() == 0,
            r matches Err(e) ==> e matches crate::song::InvalidMapError::TooLongSegments(v)
                && pairs_view(v@) == long_runs(self@),
    {
        let n = self.0.len();
        let mut segs: Vec<(usize, usize)> = Vec::new();
        let mut cur: usize = 0;
        for i in 0..n
            invariant
                n == self@.len(),
                cur == open_len(self@, i as int),
                pairs_view(segs@) == closed_long_runs(self@, i as int),
        {
            proof {
                lemma_open_len_le(self@, i as int);
            }
            if self.0[i] == ScoreEntry::B {
                if cur >= 10 {
                    segs.push((i - cur, cur));
                    assert(pairs_view(segs@) == closed_long_runs(self@, i + 1));
                }
                cur = 0;
            } else {
                cur = cur + 1;
            }
        }
        proof {
            lemma_open_len_le(self@, n as int);
            lemma_long_runs_iff(self@);
        }
        if cur >= 10 {
            segs.push((n - cur, cur));
            assert(pairs_view(segs@) == long_runs(self@));
        }
        if segs.len() == 0 {
            Ok(())
        } else {
            Err(crate::song::InvalidMapError::TooLongSegments(segs))
        }
    }
}

} // verus!

verus! {

/// The entries that compact text stands for, if every character stands for one.
pub open spec fn parse_compact(t: Seq<char>) -> Option<Seq<ScoreEntry>> {
    if forall|i: int| 0 <= i < t.len() ==> (#[trigger] entry_of_char(t[i])) is Some {
        Some(t.map_values(|c: char| entry_of_char(c)->0))
    } else {
        None
    }
}

/// State of reading script text: the entries read so far (none after an error), and
/// whether the current comma-separated token has already given its entry.
pub open spec fn scan_score(t: Seq<char>) -> (Option<Seq<ScoreEntry>>, bool)
    decreases t.len(),
{
    if t.len() == 0 {
        (Some(seq![]), false)
    } else {
        let (acc, taken) = scan_score(t.drop_last());
        let c = t.last();
        match acc {
            None => (None, taken),
            Some(a) => if c == ',' {
                (Some(a), false)
            } else if is_space(c) {
                (Some(a), taken)
            } else if taken {
                (Some(a), true)
            } else {
                match entry_of_char(c) {
                    Some(e) => (Some(a.push(e)), true),
                    None => (None, true),
                }
            },
        }
    }
}

/// Position of entry `k` in a rendered script: (0-based line, position in line).
pub open spec fn entry_line_pos(l: Seq<(u32, u32)>, k: nat) -> (nat, nat)
    decreases k,
{
    if k == 0 {
        (0, 0)
    } else {
        let (id, pos) = entry_line_pos(l, (k - 1) as nat);
        if pos + 1 < line_len(l, id) {
            (id, pos + 1)
        } else {
            (id + 1, 0)
        }
    }
}

/// Entry `k` is the last of its line.
pub open spec fn ends_line(l: Seq<(u32, u32)>, k: nat) -> bool {
    let (id, pos) = entry_line_pos(l, k);
    pos + 1 >= line_len(l, id)
}

/// The text written for entry `k` of `n`: its character, a comma, and a line break
/// where a line ends before the last entry, else a space.
pub open spec fn entry_piece(e: ScoreEntry, l: Seq<(u32, u32)>, k: nat, n: nat) -> Seq<char> {
    seq![entry_char(e), ',', if ends_line(l, k) && k + 1 < n { '\n' } else { ' ' }]
}

/// The script text of the first `m` entries of `s`.
pub open spec fn score_script_prefix(s: Seq<ScoreEntry>, l: Seq<(u32, u32)>, m: nat) -> Seq<char>
    decreases m,
{
    if m == 0 {
        seq![]
    } else {
        score_script_prefix(s, l, (m - 1) as nat) + entry_piece(
            s[m - 1],
            l,
            (m - 1) as nat,
            s.len(),
        )
    }
}

/// The script text of a timeline laid out by `l`: entries separated by ", ", each
/// line ended by a comma, lines joined by line breaks, and one space at the end.
pub open spec fn score_script(s: Seq<ScoreEntry>, l: Seq<(u32, u32)>) -> Seq<char> {
    if s.len() == 0 {
        seq![' ']
    } else {
        score_script_prefix(s, l, s.len())
    }
}

impl ScoreData {
    /// The compact text: one character per entry.
    pub fn to_string(&self) -> (r: String)
        ensures
            r@ == compact_text(self@),
    {
        let mut v: Vec<char> = Vec::new();
        let n = self.0.len();
        for i in 0..n
            invariant
                n == self@.len(),
                v@ == compact_text(self@.take(i as int)),
        {
            v.push(self.0[i].to_char());
            assert(compact_text(self@.take(i + 1)) == compact_text(self@.take(i as int)).push(
                entry_char(self@[i as int]),
            ));
        }
        assert(self@.take(n as int) == self@);
        string_of(&v)
    }

    /// Reads compact text; fails at the first character that stands for no entry.
    pub fn from_str(t: &str) -> (r: Result<ScoreData, ParseError>)
        ensures
            r matches Ok(d) ==> parse_compact(t@) == Some(d@),
            r is Err <==> parse_compact(t@) is None,
            r matches Err(e) ==> e matches ParseError::InvalidEntry(i) && i < t@.len()
                && entry_of_char(t@[i as int]) is None,
    {
        let cs = chars_of(t);
        let mut v: Vec<ScoreEntry> = Vec::new();
        let n = cs.len();
        for i in 0..n
            invariant
                n == cs@.len(),
                cs@ == t@,
                v@.len() == i,
                forall|j: int| 0 <= j < i ==> (#[trigger] entry_of_char(cs@[j])) == Some(v@[j]),
        {
            match ScoreEntry::from_char(cs[i]) {
                Some(e) => v.push(e),
                None => {
                    return Err(ParseError::InvalidEntry(i));
                },
            }
        }
        assert(v@ == t@.map_values(|c: char| entry_of_char(c)->0));
        Ok(ScoreData(v))
    }
}

/// A timeline of one difficulty.
#[derive(Debug, Clone)]
pub struct MapScore {
    pub scores: ScoreData,
}

proof fn lemma_scan_piece(a: Seq<char>, acc: Seq<ScoreEntry>, e: ScoreEntry, x: char)
    requires
        scan_score(a) == (Some(acc), false),
        x == ' ' || x == '\n',
    ensures
        scan_score(a + seq![entry_char(e), ',', x]) == (Some(acc.push(e)), false),
{
    let b1 = a + seq![entry_char(e)];
    let b2 = a + seq![entry_char(e), ','];
    let b3 = a + seq![entry_char(e), ',', x];
    assert(entry_of_char(entry_char(e)) == Some(e));
    assert(b1.drop_last() == a);
    assert(b1.last() == entry_char(e));
    assert(scan_score(b1) == (Some(acc.push(e)), true));
    assert(b2.drop_last() == b1);
    assert(b2.last() == ',');
    assert(scan_score(b2) == (Some(acc.push(e)), false));
    assert(b3.drop_last() == b2);
    assert(b3.last() == x);
}

/// Reading a rendered script gives back the timeline, whatever the layout.
pub proof fn lemma_score_script_round_trip(s: Seq<ScoreEntry>, l: Seq<(u32, u32)>)
    ensures
        scan_score(score_script(s, l)).0 == Some(s),
{
    if s.len() == 0 {
        assert(seq![' '].drop_last() == Seq::<char>::empty());
        assert(scan_score(Seq::<char>::empty()) == (Some(Seq::<ScoreEntry>::empty()), false));
        assert(scan_score(seq![' ']) == (Some(Seq::<ScoreEntry>::empty()), false));
    } else {
        lemma_score_script_prefix(s, l, s.len());
        assert(s.take(s.len() as int) == s);
    }
}

proof fn lemma_score_script_prefix(s: Seq<ScoreEntry>, l: Seq<(u32, u32)>, m: nat)
    requires
        m <= s.len(),
    ensures
        scan_score(score_script_prefix(s, l, m)) == (Some(s.take(m as int)), false),
    decreases m,
{
    if m > 0 {
        lemma_score_script_prefix(s, l, (m - 1) as nat);
        let x = if ends_line(l, (m - 1) as nat) && m < s.len() { '\n' } else { ' ' };
        lemma_scan_piece(score_script_prefix(s, l, (m - 1) as nat), s.take(m - 1), s[m - 1], x);
        assert(s.take(m - 1).push(s[m - 1]) == s.take(m as int));
    } else {
        assert(s.take(0) == Seq::<ScoreEntry>::empty());
    }
}

impl MapScore {
    /// A timeline of `len` blank slots.
    pub fn default_with_len(len: usize) -> (r: MapScore)
        ensures
            r.scores@ == Seq::new(len as nat, |i: int| ScoreEntry::B),
    {
        let mut v: Vec<ScoreEntry> = Vec::new();
        for i in 0..len
            invariant
                v@ == Seq::new(i as nat, |j: int| ScoreEntry::B),
        {
            v.push(ScoreEntry::B);
        }
        MapScore { scores: ScoreData(v) }
    }

    pub fn validate(&self) -> (r: Result<(), crate::song::InvalidMapError>)
        ensures
            r is Ok <==> !has_long_run(self.scores@),
            r matches Err(e) ==> e matches crate::song::InvalidMapError::TooLongSegments(v)
                && pairs_view(v@) == long_runs(self.scores@),
    {
        self.scores.validate()
    }

    /// Renders the timeline as script text, in lines laid out by `beats_layout`.
    pub fn to_script(&self, beats_layout: &BeatsLayout) -> (r: String)
        requires
            beats_layout.wf(),
        ensures
            r@ == score_script(self.scores@, beats_layout@),
    {
        let ghost l = beats_layout@;
        let ghost s = self.scores@;
        let n = self.scores.0.len();
        let mut out: Vec<char> = Vec::new();
        let mut line_length: u32 = 4;
        let mut line_id: usize = 0;
        let mut line_pos: usize = 0;
        for k in 0..n
            invariant
                n == s.len(),
                s == self.scores@,
                l == beats_layout@,
                layout_wf(l),
                out@ == score_script_prefix(s, l, k as nat),
                (line_id as nat, line_pos as nat) == entry_line_pos(l, k as nat),
                line_length as int == line_len(l, line_id as nat),
                line_pos < line_length,
                line_id <= k,
        {
            proof {
                lemma_line_len_pos(l, line_id as nat);
            }
            out.push(self.scores.0[k].to_char());
            out.push(',');
            if line_pos + 1 < line_length as usize {
                out.push(' ');
                line_pos = line_pos + 1;
            } else {
                if k + 1 < n {
                    out.push('\n');
                } else {
                    out.push(' ');
                }
                let next = if line_id < (u32::MAX - 1) as usize {
                    beats_layout.get(line_id + 2)
                } else {
                    proof {
                        crate::layout::lemma_layout_get_wf(l, line_id + 2);
                    }
                    None
                };
                match next {
                    Some(len) => {
                        line_length = len;
                    },
                    None => {},
                }
                line_id = line_id + 1;
                line_pos = 0;
                proof {
                    lemma_line_len_pos(l, line_id as nat);
                }
            }
            assert(out@ == score_script_prefix(s, l, (k + 1) as nat));
        }
        if n == 0 {
            out.push(' ');
        }
        string_of(&out)
    }

    /// Reads script text back into a timeline: every character but commas and spaces
    /// is ignored except the first of each comma-separated token, which must stand for
    /// an entry.
    pub fn from_score(score: &str) -> (r: Result<MapScore, ParseError>)
        ensures
            r is Ok <==> scan_score(score@).0 is Some,
            r matches Ok(m) ==> scan_score(score@).0 == Some(m.scores@),
    {
        let cs = chars_of(score);
        let n = cs.len();
        let mut v: Vec<ScoreEntry> = Vec::new();
        let mut taken = false;
        for i in 0..n
            invariant
                n == cs@.len(),
                cs@ == score@,
                scan_score(score@.take(i as int)) == (Some(v@), taken),
        {
            assert(score@.take(i + 1).drop_last() == score@.take(i as int));
            let c = cs[i];
            if c == ',' {
                taken = false;
            } else if crate::text::is_space_char(c) {
            } else if taken {
            } else {
                match ScoreEntry::from_char(c) {
                    Some(e) => {
                        v.push(e);
                        taken = true;
                    },
                    None => {
                        proof {
                            lemma_scan_error_stays(score@, i + 1);
                        }
                        return Err(ParseError::InvalidEntry(i));
                    },
                }
            }
        }
        assert(score@.take(n as int) == score@);
        Ok(MapScore { scores: ScoreData(v) })
    }
}

proof fn lemma_scan_error_stays(t: Seq<char>, m: int)
    requires
        0 <= m <= t.len(),
        scan_score(t.take(m)).0 is None,
    ensures
        scan_score(t).0 is None,
    decreases t.len() - m,
{
    if m < t.len() {
        assert(t.take(m + 1).drop_last() == t.take(m));
        lemma_scan_error_stays(t, m + 1);
    } else {
        assert(t.take(m) == t);
    }
}

} // verus!

verus! {

/// The timeline of `len` slots that has note `e` at each 1-based slot `i` of the
/// assignments, later ones winning, and blanks elsewhere.
pub open spec fn timeline_of(len: nat, notes: Seq<(u16, ScoreEntry)>) -> Seq<ScoreEntry>
    decreases notes.len(),
{
    if notes.len() == 0 {
        Seq::new(len, |i: int| ScoreEntry::B)
    } else {
        let (i, e) = notes.last();
        timeline_of(len, notes.drop_last()).update(i as int - 1, e)
    }
}

impl ScoreData {
    /// A timeline from note assignments at 1-based slots; `None` when one falls outside
    /// the `len` slots.
    pub fn from_notes(len: usize, notes: &Vec<(u16, ScoreEntry)>) -> (r: Option<ScoreData>)
        ensures
            r is Some <==> forall|j: int| 0 <= j < notes@.len() ==> 1 <= (#[trigger] notes@[j]).0 <= len,
            r matches Some(d) ==> d@ == timeline_of(len as nat, notes@),
    {
        let mut v: Vec<ScoreEntry> = Vec::new();
        for i in 0..len
            invariant
                v@ == Seq::new(i as nat, |j: int| ScoreEntry::B),
        {
            v.push(ScoreEntry::B);
        }
        let n = notes.len();
        for j in 0..n
            invariant
                n == notes@.len(),
                v@.len() == len,
                forall|q: int| 0 <= q < j ==> 1 <= (#[trigger] notes@[q]).0 <= len,
                v@ == timeline_of(len as nat, notes@.take(j as int)),
        {
            let (i, e) = notes[j];
            if i == 0 || i as usize > len {
                return None;
            }
            assert(notes@.take(j + 1).drop_last() == notes@.take(j as int));
            v.set(i as usize - 1, e);
        }
        assert(notes@.take(n as int) == notes@);
        Some(ScoreData(v))
    }
}

} // verus!

verus! {

/// The note that a map action plays: a `PlaySound` event with the `Hat` sound is a
/// normal note, with the `Hammer` sound a heavy one; other actions play none.
pub open spec fn action_note(event_type: Seq<char>, hit_sound: Seq<char>) -> Option<ScoreEntry> {
    if event_type != "PlaySound"@ {
        None
    } else if hit_sound == "Hat"@ {
        Some(ScoreEntry::O)
    } else if hit_sound == "Hammer"@ {
        Some(ScoreEntry::S)
    } else {
        None
    }
}

pub fn note_of_action(event_type: &str, hit_sound: &str) -> (r: Option<ScoreEntry>)
    ensures
        r == action_note(event_type@, hit_sound@),
{
    if !crate::text::str_eq(event_type, "PlaySound") {
        None
    } else if crate::text::str_eq(hit_sound, "Hat") {
        Some(ScoreEntry::O)
    } else if crate::text::str_eq(hit_sound, "Hammer") {
        Some(ScoreEntry::S)
    } else {
        None
    }
}

} // verus!
