use spell_bubble_mod_tool::layout::BpmChanges;
use spell_bubble_mod_tool::rating::level_of;
use spell_bubble_mod_tool::layout::BeatsLayout;
use spell_bubble_mod_tool::score::{MapScore, ScoreData};
use spell_bubble_mod_tool::song::{
    Difficulty, InvalidMapError, Lang, MapScores, MusicID, SongInfo, SongInfoText, SongMap,
};

fn text(title: &str, sub: &str, artist: &str, artist2: &str) -> SongInfoText {
    SongInfoText {
        title: title.to_string(),
        title_kana: String::new(),
        sub_title: sub.to_string(),
        artist: artist.to_string(),
        artist2: artist2.to_string(),
        artist_kana: String::new(),
        original: "Original".to_string(),
    }
}

fn repeated(unit: &str, times: usize) -> ScoreData {
    ScoreData::from_str(&unit.repeat(times)).unwrap()
}

fn song(bpm: u32, changes: Option<BpmChanges>, hard: ScoreData, existing: bool) -> SongMap {
    let mut scores = MapScores::new();
    scores.insert(Difficulty::Hard, MapScore { scores: hard });
    SongMap {
        song_info: SongInfo {
            id: if existing {
                MusicID::Existing("Agepoyo".to_string())
            } else {
                MusicID::New("Newly".to_string())
            },
            music_file: "file_path".to_string(),
            bpm,
            offset_ms: 10,
            length: 1500,
            area: "Arena".to_string(),
            info_text: vec![(Lang::JA, text("Title", "SubTitle", "Artist", "Artist2"))],
            prev_start_ms: 0,
            bpm_changes: changes,
            dlc_index: 0,
        },
        map_scores: scores,
    }
}

#[test]
fn end_to_end_constant_tempo() {
    let m = song(1500, None, repeated("OOO-", 375), true);
    assert!(m.validate(true).is_ok());
    assert_eq!(m.effective_bpm(), 1500);
    // (1500 - 1) beats of 0.4 s.
    assert_eq!(m.duration(), Some(599_600_000_000));
}

#[test]
fn duration_falls_as_tempo_rises() {
    let slow = song(1200, None, repeated("O-", 50), true);
    let fast = song(1500, None, repeated("O-", 50), true);
    assert!(slow.duration().unwrap() > fast.duration().unwrap());
    assert_eq!(slow.duration(), Some(99 * 500_000_000));
}

#[test]
fn effective_tempo_with_changes() {
    let m = song(1200, Some(BpmChanges(vec![(4, 2400)])), repeated("O", 9), true);
    assert_eq!(m.duration(), Some(3_000_000_000));
    assert_eq!(m.effective_bpm(), 1800);
    let table = m.beat_time_table().unwrap();
    assert_eq!(table[4], 2_000_000_000);
    assert_eq!(table[5], 2_250_000_000);
}

#[test]
fn no_hard_timeline_no_duration() {
    let mut m = song(1500, None, repeated("O", 4), true);
    m.map_scores.hard = None;
    assert_eq!(m.duration(), None);
    assert_eq!(m.level(Difficulty::Hard, Some("O,\n")), 0);
}

#[test]
fn level_of_eight_full_lines() {
    let m = song(1500, None, repeated("O", 64), true);
    let script = "O, O, O, O,\n".repeat(8);
    // One window: 32 notes in 12.8 s is 2.5 notes per second; ceil(1.5 * 4.2) = 7.
    assert_eq!(m.level(Difficulty::Hard, Some(&script)), 7);
}

#[test]
fn level_is_zero_under_eight_lines() {
    let m = song(1500, None, repeated("O", 64), true);
    let script = "O, O, O, O,\n".repeat(7);
    assert_eq!(m.level(Difficulty::Hard, Some(&script)), 0);
    assert_eq!(m.level(Difficulty::Easy, None), 0);
}

#[test]
fn level_from_own_timeline() {
    let m = song(1500, None, repeated("O", 32), true);
    let (e, n, h) = m.levels();
    assert_eq!((e, n), (0, 0));
    assert_eq!(h, 7);
}

#[test]
fn level_of_sparse_script_is_zero() {
    let table: Vec<u128> = (0..64u128).map(|k| k * 400_000_000).collect();
    let script = "O, -, -, -,\n".repeat(10);
    assert_eq!(level_of(&script, &table, &BeatsLayout(vec![])), 0);
}

#[test]
fn level_takes_busiest_windows() {
    let table: Vec<u128> = (0..128u128).map(|k| k * 400_000_000).collect();
    let mut script = "O, -, -, -,\n".repeat(12);
    script.push_str(&"O, O, O, O,\n".repeat(8));
    // 13 windows; the 3 busiest hold 32, 29 and 26 notes in 12.8 s: about 2.27 notes
    // per second on average, and ceil(1.27 * 4.2) = 6.
    assert_eq!(level_of(&script, &table, &BeatsLayout(vec![])), 6);
}

#[test]
fn texts_join_and_validate() {
    let t = text("Title", "SubTitle", "Artist", "");
    assert_eq!(t.title(), "Title SubTitle");
    assert_eq!(t.artist(), "Artist");
    assert_eq!(t.original(), "Original");
    assert!(t.validate().is_ok());
    assert!(matches!(text("", "", "A", "").validate(), Err(InvalidMapError::EmptyTitle)));
    assert!(matches!(text("T", "", "", "").validate(), Err(InvalidMapError::EmptyArtist)));
}

#[test]
fn map_validation_errors() {
    let m = song(1500, None, repeated("O", 10), true);
    match m.validate(true) {
        Err(InvalidMapError::TooLongSegments(v)) => assert_eq!(v, vec![(0, 10)]),
        _ => panic!("expected a too long segment"),
    }
    let m = song(1500, None, repeated("O-", 10), true);
    assert!(matches!(m.validate(false), Err(InvalidMapError::InvalidIDExists(_))));
    let m = song(1500, None, repeated("O-", 10), false);
    assert!(matches!(m.validate(true), Err(InvalidMapError::InvalidIDNotExists(_))));
    assert!(m.validate(false).is_ok());
    let mut m = song(1500, None, repeated("O-", 10), true);
    m.map_scores = MapScores::new();
    assert!(matches!(m.validate(true), Err(InvalidMapError::EmptyScores)));
    m.song_info.info_text.clear();
    assert!(matches!(m.validate(true), Err(InvalidMapError::EmptySongInfoText)));
}

#[test]
fn music_id_from_catalog() {
    let catalog = vec!["Alice".to_string(), "Agepoyo".to_string()];
    assert!(matches!(MusicID::parse("Agepoyo", &catalog), MusicID::Existing(s) if s == "Agepoyo"));
    assert!(matches!(MusicID::parse("Other", &catalog), MusicID::New(s) if s == "Other"));
    assert_eq!(MusicID::New("x".to_string()).name(), "x");
}

#[test]
fn tempo_checks() {
    let m = song(0, None, repeated("O", 4), true);
    assert!(!m.song_info.tempo_ok());
    let m = song(1500, Some(BpmChanges(vec![(4, 1000), (4, 1200)])), repeated("O", 4), true);
    assert!(!m.song_info.tempo_ok());
    let m = song(1500, Some(BpmChanges(vec![(4, 1000)])), repeated("O", 4), true);
    assert!(m.song_info.tempo_ok());
    assert!(m.song_info.is_bpm_change());
}

#[test]
fn missing_timelines_are_filled_blank() {
    let m = song(1500, None, repeated("O-", 2), true);
    let all = m.map_scores.complete(4);
    assert_eq!(all.easy.unwrap().scores.to_string(), "----");
    assert_eq!(all.normal.unwrap().scores.to_string(), "----");
    assert_eq!(all.hard.unwrap().scores.to_string(), "O-O-");
}

#[test]
fn song_list_row() {
    let m = song(1500, None, repeated("O", 64), true);
    let info = spell_bubble_mod_tool::song::MapInfo {
        map: m,
        score_e: String::new(),
        score_n: "O, O, O, O,\n".repeat(7),
        score_h: "O, O, O, O,\n".repeat(8),
    };
    let (cells, pack) = info.row(&vec![]).unwrap();
    assert_eq!(
        cells,
        vec![
            "Agepoyo",
            "Title SubTitle",
            "Artist Artist2",
            "Original",
            "150.0",
            "false",
            "0",
            "0",
            "7",
            "1500",
            "Arena"
        ]
    );
    assert_eq!(pack, None);
    let mut with_pack = info.clone();
    with_pack.map.song_info.dlc_index = 2;
    assert!(with_pack.row(&vec!["A".to_string()]).is_none());
    let (_, pack) = with_pack.row(&vec!["A".to_string(), "B".to_string()]).unwrap();
    assert_eq!(pack, Some("B".to_string()));
}
