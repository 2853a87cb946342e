//! Songs: identity, metadata, per-difficulty timelines, validation, timing and levels.

use vstd::prelude::*;

use crate::layout::{changes_wf, derived_layout, BeatsLayout, BpmChanges};
use crate::rating::{level_of, script_level, TIME_BOUND};
use crate::score::score_script;
use crate::score::{has_long_run, long_runs, pairs_view, MapScore};

verus! {

/// Why a map cannot be patched into the game.
#[derive(Debug, Clone)]
pub enum InvalidMapError {
    /// A language's text has an empty title.
    EmptyTitle,
    /// A language's text has an empty artist.
    EmptyArtist,
    /// No language has any text.
    EmptySongInfoText,
    /// No difficulty has a timeline.
    EmptyScores,
    /// Runs of notes longer than nine beats, as (start index, length), in order.
    TooLongSegments(Vec<(usize, usize)>),
    /// Replacing songs needs an identifier of the game's catalog.
    InvalidIDNotExists(MusicID),
    /// Adding songs needs an identifier outside the game's catalog.
    InvalidIDExists(MusicID),
}

/// A song identifier: one of the game's catalog, or a new one.
#[derive(Debug, Clone)]
pub enum MusicID {
    Existing(String),
    New(String),
}

impl MusicID {
    /// Whether the identifier is one of the game's catalog.
    pub fn is_existing(&self) -> (r: bool)
        ensures
            r == (self is Existing),
    {
        match self {
            MusicID::Existing(_) => true,
            MusicID::New(_) => false,
        }
    }

    /// The identifier's text.
    pub fn name(&self) -> (r: String)
        ensures
            r@ == match self {
                MusicID::Existing(s) => s@,
                MusicID::New(s) => s@,
            },
    {
        match self {
            MusicID::Existing(s) => s.clone(),
            MusicID::New(s) => s.clone(),
        }
    }

    /// The identifier named `value`: a catalog one when the catalog holds that name.
    pub fn parse(value: &str, catalog: &Vec<String>) -> (r: MusicID)
        ensures
            (exists|i: int| 0 <= i < catalog@.len() && (#[trigger] catalog@[i])@ == value@) ==> (r
                matches MusicID::Existing(s) && s@ == value@),
            (forall|i: int| 0 <= i < catalog@.len() ==> (#[trigger] catalog@[i])@ != value@) ==> (r
                matches MusicID::New(s) && s@ == value@),
    {
        let n = catalog.len();
        for i in 0..n
            invariant
                n == catalog@.len(),
                forall|j: int| 0 <= j < i ==> (#[trigger] catalog@[j])@ != value@,
        {
            if crate::text::str_eq(catalog[i].as_str(), value) {
                return MusicID::Existing(value.to_owned());
            }
        }
        MusicID::New(value.to_owned())
    }
}

/// Languages of song texts.
#[derive(Debug, Clone, Copy, PartialEq, Eq, Structural, Hash)]
pub enum Lang {
    JA,
    EN,
    KO,
    Chs,
    Cht,
}

/// A song's texts in one language.
#[derive(Debug, Clone)]
pub struct SongInfoText {
    pub title: String,
    pub title_kana: String,
    pub sub_title: String,
    pub artist: String,
    pub artist2: String,
    pub artist_kana: String,
    pub original: String,
}

/// 0 when a text is complete, 1 when its title is empty, 2 when only its artist is.
pub open spec fn text_check(t: SongInfoText) -> int {
    if t.title@.len() == 0 {
        1
    } else if t.artist@.len() == 0 {
        2
    } else {
        0
    }
}

/// `a`, or `a` and `b` joined by a space when `b` is not empty.
pub open spec fn joined(a: Seq<char>, b: Seq<char>) -> Seq<char> {
    if b.len() == 0 {
        a
    } else {
        a + seq![' '] + b
    }
}

fn join_with_space(a: &String, b: &String) -> (r: String)
    ensures
        r@ == joined(a@, b@),
{
    if b.as_str().is_empty() {
        a.clone()
    } else {
        let mut r = a.clone();
        r.append(" ");
        r.append(b.as_str());
        proof {
            reveal_strlit(" ");
        }
        r
    }
}

impl SongInfoText {
    /// A text needs a title and an artist.
    pub fn validate(&self) -> (r: Result<(), InvalidMapError>)
        ensures
            text_check(*self) == 0 <==> r is Ok,
            text_check(*self) == 1 <==> r matches Err(InvalidMapError::EmptyTitle),
            text_check(*self) == 2 <==> r matches Err(InvalidMapError::EmptyArtist),
    {
        if self.title.as_str().is_empty() {
            Err(InvalidMapError::EmptyTitle)
        } else if self.artist.as_str().is_empty() {
            Err(InvalidMapError::EmptyArtist)
        } else {
            Ok(())
        }
    }

    /// The title, followed by the subtitle when there is one.
    pub fn title(&self) -> (r: String)
        ensures
            r@ == joined(self.title@, self.sub_title@),
    {
        join_with_space(&self.title, &self.sub_title)
    }

    /// The artist, followed by the second artist when there is one.
    pub fn artist(&self) -> (r: String)
        ensures
            r@ == joined(self.artist@, self.artist2@),
    {
        join_with_space(&self.artist, &self.artist2)
    }

    pub fn original(&self) -> (r: String)
        ensures
            r@ == self.original@,
    {
        self.original.clone()
    }
}

/// The difficulties of a song.
#[derive(Debug, Clone, Copy, PartialEq, Eq, Structural, Hash)]
pub enum Difficulty {
    Easy,
    Normal,
    Hard,
}

} // verus!

verus! {

/// The timelines of a song, one per difficulty at most.
#[derive(Debug, Clone)]
pub struct MapScores {
    pub easy: Option<MapScore>,
    pub normal: Option<MapScore>,
    pub hard: Option<MapScore>,
}

pub open spec fn score_of(m: MapScores, d: Difficulty) -> Option<MapScore> {
    match d {
        Difficulty::Easy => m.easy,
        Difficulty::Normal => m.normal,
        Difficulty::Hard => m.hard,
    }
}

impl MapScores {
    /// No difficulty has a timeline.
    pub fn new() -> (r: MapScores)
        ensures
            r.easy is None && r.normal is None && r.hard is None,
    {
        MapScores { easy: None, normal: None, hard: None }
    }

    pub fn get(&self, d: Difficulty) -> (r: Option<&MapScore>)
        ensures
            match score_of(*self, d) {
                Some(s) => r == Some(&s),
                None => r is None,
            },
    {
        match d {
            Difficulty::Easy => self.easy.as_ref(),
            Difficulty::Normal => self.normal.as_ref(),
            Difficulty::Hard => self.hard.as_ref(),
        }
    }

    /// Sets the timeline of one difficulty.
    pub fn insert(&mut self, d: Difficulty, score: MapScore)
        ensures
            forall|e: Difficulty| #[trigger] score_of(*final(self), e) == if e == d {
                Some(score)
            } else {
                score_of(*old(self), e)
            },
    {
        match d {
            Difficulty::Easy => {
                self.easy = Some(score);
            },
            Difficulty::Normal => {
                self.normal = Some(score);
            },
            Difficulty::Hard => {
                self.hard = Some(score);
            },
        }
    }

    pub fn is_empty(&self) -> (r: bool)
        ensures
            r == (self.easy is None && self.normal is None && self.hard is None),
    {
        self.easy.is_none() && self.normal.is_none() && self.hard.is_none()
    }
}

/// A song's identity and metadata. Tempos are in tenths of a beat per minute.
#[derive(Debug, Clone)]
pub struct SongInfo {
    pub id: MusicID,
    pub music_file: String,
    pub bpm: u32,
    pub offset_ms: i32,
    pub length: u16,
    pub area: String,
    pub info_text: Vec<(Lang, SongInfoText)>,
    pub prev_start_ms: u32,
    pub bpm_changes: Option<BpmChanges>,
    pub dlc_index: u16,
}

/// The first failing check over the texts, in order: 0 when all are complete.
pub open spec fn texts_check(t: Seq<(Lang, SongInfoText)>) -> int
    decreases t.len(),
{
    if t.len() == 0 {
        0
    } else {
        let c = texts_check(t.drop_last());
        if c != 0 {
            c
        } else {
            text_check(t.last().1)
        }
    }
}

impl SongInfo {
    /// Every text needs a title and an artist, and some text must exist.
    pub fn validate(&self) -> (r: Result<(), InvalidMapError>)
        ensures
            r is Ok <==> texts_check(self.info_text@) == 0 && self.info_text@.len() > 0,
            r matches Err(InvalidMapError::EmptyTitle) <==> texts_check(self.info_text@) == 1,
            r matches Err(InvalidMapError::EmptyArtist) <==> texts_check(self.info_text@) == 2,
            r matches Err(InvalidMapError::EmptySongInfoText) <==> self.info_text@.len() == 0,
            r is Err ==> r matches Err(InvalidMapError::EmptyTitle) || r matches Err(
                InvalidMapError::EmptyArtist,
            ) || r matches Err(InvalidMapError::EmptySongInfoText),
    {
        let n = self.info_text.len();
        for i in 0..n
            invariant
                n == self.info_text@.len(),
                texts_check(self.info_text@.take(i as int)) == 0,
        {
            assert(self.info_text@.take(i + 1).drop_last() == self.info_text@.take(i as int));
            match self.info_text[i].1.validate() {
                Ok(()) => {},
                Err(e) => {
                    proof {
                        lemma_texts_check_stays(self.info_text@, i + 1);
                    }
                    return Err(e);
                },
            }
        }
        assert(self.info_text@.take(n as int) == self.info_text@);
        if n == 0 {
            Err(InvalidMapError::EmptySongInfoText)
        } else {
            Ok(())
        }
    }

    pub fn is_bpm_change(&self) -> (r: bool)
        ensures
            r == self.bpm_changes is Some,
    {
        self.bpm_changes.is_some()
    }

    /// The tempos can be timed: every tempo is positive and changes are ordered.
    pub open spec fn tempo_wf(&self) -> bool {
        &&& self.bpm >= 1
        &&& self.bpm_changes matches Some(c) ==> (changes_wf(c@) && forall|j: int|
            0 <= j < c@.len() ==> (#[trigger] c@[j]).1 >= 1)
    }

    /// Whether the tempos can be timed.
    pub fn tempo_ok(&self) -> (r: bool)
        ensures
            r == self.tempo_wf(),
    {
        if self.bpm == 0 {
            return false;
        }
        match &self.bpm_changes {
            None => true,
            Some(c) => {
                let n = c.0.len();
                for j in 0..n
                    invariant
                        n == c@.len(),
                        self.bpm >= 1,
                        self.bpm_changes == Some(*c),
                        forall|q: int| 0 <= q < j ==> (#[trigger] c@[q]).1 >= 1,
                        forall|a: int, b: int| 0 <= a < b < j ==> c@[a].0 < c@[b].0,
                {
                    if c.0[j].1 == 0 {
                        assert(c@[j as int].1 == 0);
                        return false;
                    }
                    if j > 0 && c.0[j - 1].0 >= c.0[j].0 {
                        assert(c@[j - 1].0 >= c@[j as int].0);
                        assert(!changes_wf(c@));
                        return false;
                    }
                }
                true
            },
        }
    }
}

proof fn lemma_texts_check_stays(t: Seq<(Lang, SongInfoText)>, m: int)
    requires
        0 <= m <= t.len(),
    ensures
        texts_check(t.take(m)) != 0 ==> texts_check(t) == texts_check(t.take(m)),
    decreases t.len() - m,
{
    if m < t.len() {
        assert(t.take(m + 1).drop_last() == t.take(m));
        lemma_texts_check_stays(t, m + 1);
    } else {
        assert(t.take(m) == t);
    }
}

/// A song with its timelines.
#[derive(Debug, Clone)]
pub struct SongMap {
    pub song_info: SongInfo,
    pub map_scores: MapScores,
}

/// The whole list of songs of a configuration.
#[derive(Debug, Clone)]
pub struct MapsConfig {
    pub maps: Vec<SongMap>,
}

impl SongMap {
    /// Checks the texts, that some timeline exists, the timelines of Easy, Normal and
    /// Hard in that order, and that the identifier suits the patch mode: a catalog one
    /// when replacing songs, a new one when adding.
    pub fn validate(&self, replace_existing: bool) -> (r: Result<(), InvalidMapError>)
        ensures
            r is Ok <==> {
                &&& texts_check(self.song_info.info_text@) == 0
                &&& self.song_info.info_text@.len() > 0
                &&& !self.map_scores.is_empty_spec()
                &&& forall|d: Difficulty| score_ok(#[trigger] score_of(self.map_scores, d))
                &&& (self.song_info.id is Existing) == replace_existing
            },
            r matches Err(InvalidMapError::EmptyTitle) <==> texts_check(self.song_info.info_text@) == 1,
            r matches Err(InvalidMapError::EmptyArtist) <==> texts_check(self.song_info.info_text@) == 2,
            r matches Err(InvalidMapError::EmptySongInfoText) <==> self.song_info.info_text@.len() == 0,
            r matches Err(InvalidMapError::EmptyScores) <==> (texts_check(self.song_info.info_text@)
                == 0 && self.song_info.info_text@.len() > 0 && self.map_scores.is_empty_spec()),
            r matches Err(InvalidMapError::TooLongSegments(_)) <==> (texts_check(
                self.song_info.info_text@,
            ) == 0 && self.song_info.info_text@.len() > 0 && !self.map_scores.is_empty_spec()
                && exists|d: Difficulty| !score_ok(#[trigger] score_of(self.map_scores, d))),
            r matches Err(InvalidMapError::TooLongSegments(v)) ==> exists|d: Difficulty|
                reports_runs(#[trigger] score_of(self.map_scores, d), v@),
            r matches Err(InvalidMapError::InvalidIDNotExists(_)) ==> replace_existing && self.song_info.id is New,
            r matches Err(InvalidMapError::InvalidIDExists(_)) ==> !replace_existing && self.song_info.id is Existing,
    {
        match self.song_info.validate() {
            Ok(()) => {},
            Err(e) => {
                return Err(e);
            },
        }
        if self.map_scores.is_empty() {
            return Err(InvalidMapError::EmptyScores);
        }
        match &self.map_scores.easy {
            Some(s) => match s.validate() {
                Ok(()) => {},
                Err(e) => {
                    proof {
                        assert(score_of(self.map_scores, Difficulty::Easy) == Some(*s));
                        assert(!score_ok(score_of(self.map_scores, Difficulty::Easy)));
                        if let InvalidMapError::TooLongSegments(v) = &e {
                            assert(reports_runs(score_of(self.map_scores, Difficulty::Easy), v@));
                        }
                    }
                    return Err(e);
                },
            },
            None => {},
        }
        match &self.map_scores.normal {
            Some(s) => match s.validate() {
                Ok(()) => {},
                Err(e) => {
                    proof {
                        assert(score_of(self.map_scores, Difficulty::Normal) == Some(*s));
                        assert(!score_ok(score_of(self.map_scores, Difficulty::Normal)));
                        if let InvalidMapError::TooLongSegments(v) = &e {
                            assert(reports_runs(score_of(self.map_scores, Difficulty::Normal), v@));
                        }
                    }
                    return Err(e);
                },
            },
            None => {},
        }
        match &self.map_scores.hard {
            Some(s) => match s.validate() {
                Ok(()) => {},
                Err(e) => {
                    proof {
                        assert(score_of(self.map_scores, Difficulty::Hard) == Some(*s));
                        assert(!score_ok(score_of(self.map_scores, Difficulty::Hard)));
                        if let InvalidMapError::TooLongSegments(v) = &e {
                            assert(reports_runs(score_of(self.map_scores, Difficulty::Hard), v@));
                        }
                    }
                    return Err(e);
                },
            },
            None => {},
        }
        assert forall|d: Difficulty| score_ok(#[trigger] score_of(self.map_scores, d)) by {
            match d {
                Difficulty::Easy => {},
                Difficulty::Normal => {},
                Difficulty::Hard => {},
            }
        }
        let id_is_existing = self.song_info.id.is_existing();
        if id_is_existing != replace_existing {
            if replace_existing {
                return Err(InvalidMapError::InvalidIDNotExists(self.song_info.id.clone()));
            } else {
                return Err(InvalidMapError::InvalidIDExists(self.song_info.id.clone()));
            }
        }
        Ok(())
    }
}

/// A timeline, if any, has no run of ten notes.
pub open spec fn score_ok(o: Option<MapScore>) -> bool {
    match o {
        Some(s) => !has_long_run(s.scores@),
        None => true,
    }
}

/// `v` reports the long runs of a timeline that has some.
pub open spec fn reports_runs(o: Option<MapScore>, v: Seq<(usize, usize)>) -> bool {
    match o {
        Some(s) => has_long_run(s.scores@) && pairs_view(v) == long_runs(s.scores@),
        None => false,
    }
}

impl MapScores {
    pub open spec fn is_empty_spec(&self) -> bool {
        self.easy is None && self.normal is None && self.hard is None
    }
}

} // verus!

verus! {

/// Nanoseconds in one minute, times ten: a beat at tempo `b` tenths lasts this over `b`.
pub const NS_PER_BEAT_AT_TENTH: u128 = 600_000_000_000;

/// Length in nanoseconds of one beat at `b` tenths of a beat per minute.
pub open spec fn beat_ns(b: u32) -> int {
    if b == 0 {
        0
    } else {
        NS_PER_BEAT_AT_TENTH as int / b as int
    }
}

/// The tempo that beat `k` is played at: that of the last change before it, else the
/// initial one.
pub open spec fn bpm_at(init: u32, c: Seq<(u16, u32)>, k: int) -> u32
    decreases c.len(),
{
    if c.len() == 0 {
        init
    } else if (c.last().0 as int) < k {
        c.last().1
    } else {
        bpm_at(init, c.drop_last(), k)
    }
}

/// Time from beat 0 to beat `k`, in nanoseconds: each later beat up to `k` adds its
/// own length.
pub open spec fn time_at(init: u32, c: Seq<(u16, u32)>, k: nat) -> int
    decreases k,
{
    if k == 0 {
        0
    } else {
        time_at(init, c, (k - 1) as nat) + beat_ns(bpm_at(init, c, k as int))
    }
}

pub open spec fn changes_of(info: SongInfo) -> Seq<(u16, u32)> {
    match info.bpm_changes {
        Some(c) => c@,
        None => seq![],
    }
}

/// Length of the Hard timeline, if there is one.
pub open spec fn hard_len(m: SongMap) -> Option<nat> {
    match m.map_scores.hard {
        Some(s) => Some(s.scores@.len()),
        None => None,
    }
}

proof fn lemma_bpm_at_suffix(init: u32, c: Seq<(u16, u32)>, j: int, k: int)
    requires
        0 <= j <= c.len(),
        forall|q: int| j <= q < c.len() ==> c[q].0 as int >= k,
    ensures
        bpm_at(init, c, k) == bpm_at(init, c.take(j), k),
    decreases c.len() - j,
{
    if j < c.len() {
        lemma_bpm_at_suffix(init, c.drop_last(), j, k);
        assert(c.drop_last().take(j) == c.take(j));
    } else {
        assert(c.take(j) == c);
    }
}

proof fn lemma_time_mono(init: u32, c: Seq<(u16, u32)>, a: nat, b: nat)
    requires
        a <= b,
    ensures
        time_at(init, c, a) <= time_at(init, c, b),
    decreases b - a,
{
    if a < b {
        lemma_time_mono(init, c, a, (b - 1) as nat);
    }
}

impl SongMap {
    /// The time at which each beat of the Hard timeline starts, in nanoseconds from
    /// the first; `None` without a Hard timeline.
    pub fn beat_time_table(&self) -> (r: Option<Vec<u128>>)
        requires
            self.song_info.tempo_wf(),
        ensures
            hard_len(*self) is None <==> r is None,
            r matches Some(t) ==> t@.len() == hard_len(*self)->0 && forall|k: int|
                0 <= k < t@.len() ==> (#[trigger] t@[k]) as int == time_at(
                    self.song_info.bpm,
                    changes_of(self.song_info),
                    k as nat,
                ),
    {
        let n = match &self.map_scores.hard {
            Some(s) => s.scores.0.len(),
            None => {
                return None;
            },
        };
        let ghost init = self.song_info.bpm;
        let ghost c = changes_of(self.song_info);
        let empty: Vec<(u16, u32)> = Vec::new();
        let changes: &Vec<(u16, u32)> = match &self.song_info.bpm_changes {
            Some(bc) => &bc.0,
            None => &empty,
        };
        assert(changes@ == c);
        let m = changes.len();
        let mut j: usize = 0;
        let mut cur: u32 = self.song_info.bpm;
        let mut t: u128 = 0;
        let mut table: Vec<u128> = Vec::new();
        assert(c.take(0) == Seq::<(u16, u32)>::empty());
        for k in 0..n
            invariant
                m == c.len(),
                changes@ == c,
                init == self.song_info.bpm,
                init >= 1,
                changes_wf(c),
                forall|q: int| 0 <= q < c.len() ==> (#[trigger] c[q]).1 >= 1,
                j <= m,
                forall|q: int| 0 <= q < j ==> (c[q].0 as int) < k,
                cur == bpm_at(init, c.take(j as int), k as int),
                cur >= 1,
                k > 0 ==> t as int == time_at(init, c, (k - 1) as nat),
                k == 0 ==> t == 0,
                t as int <= k * NS_PER_BEAT_AT_TENTH,
                table@.len() == k,
                forall|q: int| 0 <= q < k ==> (#[trigger] table@[q]) as int == time_at(init, c, q as nat),
        {
            while j < m && (changes[j].0 as usize) < k
                invariant
                    m == c.len(),
                    changes@ == c,
                    changes_wf(c),
                    forall|q: int| 0 <= q < c.len() ==> (#[trigger] c[q]).1 >= 1,
                    j <= m,
                    forall|q: int| 0 <= q < j ==> (c[q].0 as int) < k,
                    cur == bpm_at(init, c.take(j as int), k as int),
                    cur >= 1,
                    init >= 1,
                decreases m - j,
            {
                cur = changes[j].1;
                j = j + 1;
                assert(c.take(j as int).drop_last() == c.take(j - 1));
            }
            proof {
                assert forall|q: int| j <= q < c.len() implies c[q].0 as int >= k by {
                    if j < c.len() && q > j {
                        assert(c[j as int].0 < c[q].0);
                    }
                }
                lemma_bpm_at_suffix(init, c, j as int, k as int);
            }
            if k > 0 {
                let d = NS_PER_BEAT_AT_TENTH / (cur as u128);
                assert(d <= NS_PER_BEAT_AT_TENTH) by (nonlinear_arith)
                    requires
                        d == NS_PER_BEAT_AT_TENTH / (cur as u128),
                        cur >= 1,
                ;
                t = t + d;
            }
            table.push(t);
            proof {
                let p = c.take(j as int);
                if j > 0 {
                    assert(p.last() == c[j - 1]);
                }
                assert(bpm_at(init, p, k + 1) == bpm_at(init, p, k as int));
            }
        }
        Some(table)
    }

    /// The time from the first to the last beat of the Hard timeline, in nanoseconds;
    /// `None` without a Hard timeline or with an empty one.
    pub fn duration(&self) -> (r: Option<u128>)
        requires
            self.song_info.tempo_wf(),
        ensures
            r is Some <==> (hard_len(*self) matches Some(n) && n > 0),
            r matches Some(d) ==> d as int == time_at(
                self.song_info.bpm,
                changes_of(self.song_info),
                (hard_len(*self)->0 - 1) as nat,
            ),
    {
        match self.beat_time_table() {
            Some(t) => {
                if t.len() == 0 {
                    None
                } else {
                    Some(t[t.len() - 1])
                }
            },
            None => None,
        }
    }

    /// The one tempo, in tenths, that plays the Hard timeline's beats in its duration:
    /// with tempo changes, beats * 60 / duration in seconds (rounded down, at most
    /// `u64::MAX`); without them, or without a positive duration, the initial tempo.
    pub fn effective_bpm(&self) -> (r: u64)
        requires
            self.song_info.tempo_wf(),
        ensures
            r == self.effective_bpm_spec(),
    {
        if !self.song_info.is_bpm_change() {
            return self.song_info.bpm as u64;
        }
        let n = match &self.map_scores.hard {
            Some(s) => s.scores.0.len(),
            None => {
                return self.song_info.bpm as u64;
            },
        };
        match self.duration() {
            Some(d) => {
                if d == 0 {
                    return self.song_info.bpm as u64;
                }
                let v = (n as u128) * NS_PER_BEAT_AT_TENTH / d;
                if v > u64::MAX as u128 {
                    u64::MAX
                } else {
                    v as u64
                }
            },
            None => self.song_info.bpm as u64,
        }
    }
}

impl SongMap {
    /// With tempo changes and a positive duration: beats * 60 / duration in seconds, in
    /// tenths, rounded down and at most `u64::MAX`; else the initial tempo.
    pub open spec fn effective_bpm_spec(&self) -> u64 {
        let n = hard_len(*self);
        let d = time_at(self.song_info.bpm, changes_of(self.song_info), (n->0 - 1) as nat);
        if self.song_info.bpm_changes is Some && n is Some && n->0 > 0 && d > 0 {
            min_int((n->0 * NS_PER_BEAT_AT_TENTH) as int / d, u64::MAX as int) as u64
        } else {
            self.song_info.bpm as u64
        }
    }
}

pub open spec fn min_int(a: int, b: int) -> int {
    if a < b {
        a
    } else {
        b
    }
}

} // verus!

verus! {

proof fn lemma_time_bound(init: u32, c: Seq<(u16, u32)>, k: nat)
    ensures
        time_at(init, c, k) <= k * NS_PER_BEAT_AT_TENTH,
        time_at(init, c, k) >= 0,
    decreases k,
{
    if k > 0 {
        lemma_time_bound(init, c, (k - 1) as nat);
        let b = bpm_at(init, c, k as int);
        if b > 0 {
            assert(NS_PER_BEAT_AT_TENTH as int / b as int <= NS_PER_BEAT_AT_TENTH) by (nonlinear_arith)
                requires
                    b > 0,
            ;
        }
    }
}

/// The layout that a song's script lines follow.
pub open spec fn song_layout(info: SongInfo) -> Seq<(u32, u32)> {
    match info.bpm_changes {
        Some(c) => derived_layout(c@),
        None => seq![],
    }
}

/// The beat time table of a song with a Hard timeline of `n` beats.
pub open spec fn time_table(info: SongInfo, n: nat) -> Seq<u128> {
    Seq::new(n, |k: int| time_at(info.bpm, changes_of(info), k as nat) as u128)
}

impl SongMap {
    /// The layout of this song's script lines.
    pub fn layout(&self) -> (r: BeatsLayout)
        requires
            self.song_info.tempo_wf(),
        ensures
            r.wf(),
            r@ == song_layout(self.song_info),
    {
        match &self.song_info.bpm_changes {
            Some(bc) => bc.beats_layout(),
            None => BeatsLayout::new(),
        }
    }

    /// The level of one difficulty, rated from `score_str` when given, else from the
    /// script of that difficulty's timeline; 0 without such a script or without a
    /// non-empty Hard timeline to time it.
    pub fn level(&self, difficulty: Difficulty, score_str: Option<&str>) -> (r: u8)
        requires
            self.song_info.tempo_wf(),
        ensures
            ({
                let script = match score_str {
                    Some(s) => Some(s@),
                    None => match score_of(self.map_scores, difficulty) {
                        Some(m) => Some(score_script(m.scores@, song_layout(self.song_info))),
                        None => None,
                    },
                };
                if script is Some && hard_len(*self) is Some && hard_len(*self)->0 > 0 {
                    r as int == script_level(
                        script->0,
                        time_table(self.song_info, hard_len(*self)->0),
                        song_layout(self.song_info),
                    )
                } else {
                    r == 0
                }
            }),
    {
        let layout = self.layout();
        let table = match self.beat_time_table() {
            Some(t) => t,
            None => {
                return 0;
            },
        };
        if table.len() == 0 {
            return 0;
        }
        let ghost init = self.song_info.bpm;
        let ghost c = changes_of(self.song_info);
        proof {
            assert(table@ == time_table(self.song_info, hard_len(*self)->0));
            assert forall|a: int, b: int| 0 <= a <= b < table@.len() implies table@[a] <= table@[b] by {
                lemma_time_mono(init, c, a as nat, b as nat);
            }
            assert forall|a: int| 0 <= a < table@.len() implies table@[a] < TIME_BOUND by {
                lemma_time_bound(init, c, a as nat);
                assert(a * NS_PER_BEAT_AT_TENTH <= 0x1_0000_0000_0000_0000 * NS_PER_BEAT_AT_TENTH) by (nonlinear_arith)
                    requires
                        0 <= a <= 0x1_0000_0000_0000_0000,
                ;
            }
        }
        match score_str {
            Some(s) => level_of(s, &table, &layout),
            None => match self.map_scores.get(difficulty) {
                Some(score) => {
                    let script = score.to_script(&layout);
                    level_of(script.as_str(), &table, &layout)
                },
                None => 0,
            },
        }
    }

    /// The levels of Easy, Normal and Hard.
    pub fn levels(&self) -> (r: (u8, u8, u8))
        requires
            self.song_info.tempo_wf(),
        ensures
            r.0 == self.level_spec(Difficulty::Easy),
            r.1 == self.level_spec(Difficulty::Normal),
            r.2 == self.level_spec(Difficulty::Hard),
    {
        (
            self.level(Difficulty::Easy, None),
            self.level(Difficulty::Normal, None),
            self.level(Difficulty::Hard, None),
        )
    }

    /// The level of a difficulty, rated from its own timeline.
    pub open spec fn level_spec(&self, d: Difficulty) -> u8 {
        match score_of(self.map_scores, d) {
            Some(m) => if hard_len(*self) is Some && hard_len(*self)->0 > 0 {
                script_level(
                    score_script(m.scores@, song_layout(self.song_info)),
                    time_table(self.song_info, hard_len(*self)->0),
                    song_layout(self.song_info),
                ) as u8
            } else {
                0
            },
            None => 0,
        }
    }
}

} // verus!

verus! {

/// Without tempo changes, a song of two or more beats lasts strictly less at a faster
/// tempo (tempos up to 77459.6 beats per minute, where one beat still differs by a
/// nanosecond or more).
pub proof fn lemma_duration_decreasing(n: nat, slow: u32, fast: u32)
    requires
        n >= 2,
        1 <= slow < fast <= 774_596,
    ensures
        time_at(fast, Seq::empty(), (n - 1) as nat) < time_at(slow, Seq::empty(), (n - 1) as nat),
{
    lemma_time_constant(fast, (n - 1) as nat);
    lemma_time_constant(slow, (n - 1) as nat);
    let a = NS_PER_BEAT_AT_TENTH as int;
    let f = fast as int;
    let sl = slow as int;
    assert(f * f <= 774_596 * f) by (nonlinear_arith)
        requires
            0 <= f <= 774_596,
    ;
    assert(774_596 * f <= 774_596 * 774_596) by (nonlinear_arith)
        requires
            0 <= f <= 774_596,
    ;
    assert(sl * f < f * f) by (nonlinear_arith)
        requires
            1 <= sl < f,
    ;
    let qf = a / f;
    assert(qf * f <= a && qf >= 0) by (nonlinear_arith)
        requires
            f >= 1,
            a >= 0,
            qf == a / f,
    ;
    assert((qf + 1) * sl <= a) by (nonlinear_arith)
        requires
            qf * f <= a,
            sl < f,
            sl * f < a,
            qf >= 0,
            sl >= 1,
    {
        assert((qf + 1) * sl == qf * sl + sl);
        assert(qf * sl <= qf * f) by (nonlinear_arith)
            requires
                qf >= 0,
                sl < f,
        ;
        assert(qf * sl + sl <= qf * f + sl);
        assert(sl <= a - qf * f || qf * sl + sl <= a) by (nonlinear_arith)
            requires
                qf * f <= a,
                sl * f < a,
                sl < f,
                qf >= 0,
                sl >= 1,
        ;
    }
    assert(a / sl >= qf + 1) by (nonlinear_arith)
        requires
            (qf + 1) * sl <= a,
            sl >= 1,
    ;
    let k = (n - 1) as int;
    assert(k * (a / (fast as int)) < k * (a / (slow as int))) by (nonlinear_arith)
        requires
            k >= 1,
            a / (slow as int) > a / (fast as int),
    ;
}

proof fn lemma_time_constant(b: u32, k: nat)
    ensures
        time_at(b, Seq::empty(), k) == k * beat_ns(b),
    decreases k,
{
    if k > 0 {
        lemma_time_constant(b, (k - 1) as nat);
        assert(bpm_at(b, Seq::empty(), k as int) == b);
        assert(time_at(b, Seq::empty(), k) == time_at(b, Seq::empty(), (k - 1) as nat) + beat_ns(b));
        let x = beat_ns(b);
        let kk = k as int;
        assert(kk * x == (kk - 1) * x + x) by (nonlinear_arith);
        assert(time_at(b, Seq::empty(), (k - 1) as nat) == (kk - 1) * x);
        assert(time_at(b, Seq::empty(), k) == kk * x);
    } else {
        assert(time_at(b, Seq::empty(), 0) == 0);
    }
}

} // verus!

verus! {

impl MapScores {
    /// The timelines, with a blank one of `len` slots for each difficulty that has none.
    pub fn complete(&self, len: usize) -> (r: MapScores)
        ensures
            forall|d: Difficulty| #[trigger] score_of(r, d) matches Some(s) && match score_of(
                *self,
                d,
            ) {
                Some(o) => s.scores@ == o.scores@,
                None => s.scores@ == Seq::new(len as nat, |i: int| crate::score::ScoreEntry::B),
            },
    {
        let fill = |o: &Option<MapScore>| -> (s: MapScore)
            ensures
                match *o {
                    Some(x) => s.scores@ == x.scores@,
                    None => s.scores@ == Seq::new(len as nat, |i: int| crate::score::ScoreEntry::B),
                },
            {
                match o {
                    Some(x) => MapScore { scores: crate::score::ScoreData(x.scores.0.clone()) },
                    None => MapScore::default_with_len(len),
                }
            };
        let r = MapScores {
            easy: Some(fill(&self.easy)),
            normal: Some(fill(&self.normal)),
            hard: Some(fill(&self.hard)),
        };
        assert forall|d: Difficulty| #[trigger] score_of(r, d) matches Some(s) && match score_of(
            *self,
            d,
        ) {
            Some(o) => s.scores@ == o.scores@,
            None => s.scores@ == Seq::new(len as nat, |i: int| crate::score::ScoreEntry::B),
        } by {
            match d {
                Difficulty::Easy => {},
                Difficulty::Normal => {},
                Difficulty::Hard => {},
            }
        }
        r
    }
}

} // verus!

verus! {

/// A game song with the script text of each difficulty.
#[derive(Debug, Clone)]
pub struct MapInfo {
    pub map: SongMap,
    pub score_e: String,
    pub score_n: String,
    pub score_h: String,
}

/// The game's songs and the names of its downloadable packs.
#[derive(Debug, Clone)]
pub struct SongInfos {
    pub maps: Vec<MapInfo>,
    pub dlcs: Vec<String>,
}

/// The text of a language, if the song has one.
pub open spec fn text_of(t: Seq<(Lang, SongInfoText)>, lang: Lang) -> Option<SongInfoText>
    decreases t.len(),
{
    if t.len() == 0 {
        None
    } else if t[0].0 == lang {
        Some(t[0].1)
    } else {
        text_of(t.drop_first(), lang)
    }
}

fn find_text(t: &Vec<(Lang, SongInfoText)>, lang: Lang) -> (r: Option<&SongInfoText>)
    ensures
        match text_of(t@, lang) {
            Some(x) => r == Some(&x),
            None => r is None,
        },
{
    let n = t.len();
    let mut i: usize = 0;
    assert(t@.skip(0) == t@);
    while i < n
        invariant
            n == t@.len(),
            i <= n,
            text_of(t@, lang) == text_of(t@.skip(i as int), lang),
        decreases n - i,
    {
        assert(t@.skip(i as int).drop_first() == t@.skip(i + 1));
        if t[i].0 == lang {
            return Some(&t[i].1);
        }
        i = i + 1;
    }
    None
}

/// The level rated from script text `s` with the song's timing and layout.
pub open spec fn given_level(m: SongMap, s: Seq<char>) -> int {
    if hard_len(m) is Some && hard_len(m)->0 > 0 {
        script_level(s, time_table(m.song_info, hard_len(m)->0), song_layout(m.song_info))
    } else {
        0
    }
}

/// `true` or `false`.
pub open spec fn bool_text(b: bool) -> Seq<char> {
    if b {
        seq!['t', 'r', 'u', 'e']
    } else {
        seq!['f', 'a', 'l', 's', 'e']
    }
}

/// A tempo in tenths as text with one decimal.
pub open spec fn tenths_text(t: u64) -> Seq<char> {
    crate::text::dec((t / 10) as nat) + seq!['.', crate::text::digit_char((t % 10) as nat)]
}

impl MusicID {
    pub open spec fn name_spec(&self) -> Seq<char> {
        match self {
            MusicID::Existing(s) => s@,
            MusicID::New(s) => s@,
        }
    }
}

fn text_of_chars(v: Vec<char>) -> (r: String)
    ensures
        r@ == v@,
{
    crate::text::string_of(&v)
}

impl MapInfo {
    /// The row of the song list: ID, title, artist, original, effective tempo, whether
    /// the tempo changes, the levels of Easy, Normal and Hard from the song's own
    /// scripts, length in beats, area, and the pack (`None` for the base game). `None`
    /// without a Japanese text or with a pack number past the list.
    pub fn row(&self, dlcs: &Vec<String>) -> (r: Option<(Vec<String>, Option<String>)>)
        requires
            self.map.song_info.tempo_wf(),
        ensures
            r is Some <==> (text_of(self.map.song_info.info_text@, Lang::JA) is Some
                && self.map.song_info.dlc_index as int <= dlcs@.len()),
            r matches Some((cells, pack)) ==> {
                let t = text_of(self.map.song_info.info_text@, Lang::JA)->0;
                &&& cells@.len() == 11
                &&& cells@[0]@ == self.map.song_info.id.name_spec()
                &&& cells@[1]@ == joined(t.title@, t.sub_title@)
                &&& cells@[2]@ == joined(t.artist@, t.artist2@)
                &&& cells@[3]@ == t.original@
                &&& cells@[4]@ == tenths_text(self.map.effective_bpm_spec())
                &&& cells@[5]@ == bool_text(self.map.song_info.bpm_changes is Some)
                &&& cells@[6]@ == crate::text::dec(given_level(self.map, self.score_e@) as nat)
                &&& cells@[7]@ == crate::text::dec(given_level(self.map, self.score_n@) as nat)
                &&& cells@[8]@ == crate::text::dec(given_level(self.map, self.score_h@) as nat)
                &&& cells@[9]@ == crate::text::dec(self.map.song_info.length as nat)
                &&& cells@[10]@ == self.map.song_info.area@
                &&& match pack {
                    None => self.map.song_info.dlc_index == 0,
                    Some(p) => self.map.song_info.dlc_index >= 1 && p@ == dlcs@[self.map.song_info.dlc_index - 1]@,
                }
            },
    {
        let info = &self.map.song_info;
        let text = match find_text(&info.info_text, Lang::JA) {
            Some(t) => t,
            None => {
                return None;
            },
        };
        let pack = if info.dlc_index == 0 {
            None
        } else if (info.dlc_index as usize) <= dlcs.len() {
            Some(dlcs[info.dlc_index as usize - 1].clone())
        } else {
            return None;
        };
        let mut cells: Vec<String> = Vec::new();
        cells.push(info.id.name());
        cells.push(text.title());
        cells.push(text.artist());
        cells.push(text.original());
        let mut bpm: Vec<char> = Vec::new();
        let e = self.map.effective_bpm();
        crate::text::push_dec(&mut bpm, e / 10);
        bpm.push('.');
        bpm.push(crate::text::digit_to_char(e % 10));
        cells.push(text_of_chars(bpm));
        let mut changes: Vec<char> = Vec::new();
        if info.is_bpm_change() {
            changes.push('t');
            changes.push('r');
            changes.push('u');
            changes.push('e');
        } else {
            changes.push('f');
            changes.push('a');
            changes.push('l');
            changes.push('s');
            changes.push('e');
        }
        cells.push(text_of_chars(changes));
        assert(changes@ =~= bool_text(info.bpm_changes is Some));
        let mut le: Vec<char> = Vec::new();
        crate::text::push_dec(&mut le, self.map.level(Difficulty::Easy, Some(self.score_e.as_str())) as u64);
        assert(le@ =~= crate::text::dec(given_level(self.map, self.score_e@) as nat));
        cells.push(text_of_chars(le));
        let mut ln: Vec<char> = Vec::new();
        crate::text::push_dec(&mut ln, self.map.level(Difficulty::Normal, Some(self.score_n.as_str())) as u64);
        assert(ln@ =~= crate::text::dec(given_level(self.map, self.score_n@) as nat));
        cells.push(text_of_chars(ln));
        let mut lh: Vec<char> = Vec::new();
        crate::text::push_dec(&mut lh, self.map.level(Difficulty::Hard, Some(self.score_h.as_str())) as u64);
        assert(lh@ =~= crate::text::dec(given_level(self.map, self.score_h@) as nat));
        cells.push(text_of_chars(lh));
        let mut length: Vec<char> = Vec::new();
        crate::text::push_dec(&mut length, info.length as u64);
        assert(length@ =~= crate::text::dec(info.length as nat));
        cells.push(text_of_chars(length));
        cells.push(info.area.clone());
        assert(bpm@ =~= tenths_text(e));
        Some((cells, pack))
    }
}

} // verus!
