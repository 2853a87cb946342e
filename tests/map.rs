use spell_bubble_mod_tool::layout::{BeatsLayout, BpmChanges};
use spell_bubble_mod_tool::score::{note_of_action, MapScore, ScoreData, ScoreEntry};
use spell_bubble_mod_tool::song::InvalidMapError;
use spell_bubble_mod_tool::text::ParseError;

fn beats_layout_of(bc: &BpmChanges) -> Vec<(u32, u32)> {
    bc.beats_layout().0
}

#[test]
fn test_beats_layout() {
    let bpm_changes = BpmChanges(vec![
        (118 * 4, 2000),
        (130 * 4, 4000),
        (206 * 4, 2000),
        (207 * 4, 4000),
        (209 * 4, 2000),
        (210 * 4, 4000),
        (212 * 4, 2000),
        (213 * 4, 4000),
        (215 * 4, 2000),
        (216 * 4, 4000),
        (236 * 4, 2000),
        (240 * 4, 4000),
        (346 * 4, 2000),
        (347 * 4, 4000),
        (403 * 4, 2000),
        (407 * 4, 4000),
        (415 * 4, 500),
        (415 * 4 + 1, 2000),
        (424 * 4 - 3, 4000),
        (438 * 4 - 3, 2000),
        (439 * 4 - 3, 4000),
        (479 * 4 - 3, 2000),
        (483 * 4 - 3, 4000),
        (491 * 4 - 3, 2000),
        (492 * 4 - 3, 4000),
        (503 * 4 - 3, 2000),
        (503 * 4 - 1, 4000),
        (536 * 4 - 5, 1000),
        (536 * 4 - 3, 4000),
        (567 * 4 - 7, 2000),
    ]);

    println!("{:?}", bpm_changes.beats_layout())
}

#[test]
fn test_map_score_to_script() {
    let map_score = MapScore {
        scores: ScoreData(vec![
            ScoreEntry::O,
            ScoreEntry::B,
            ScoreEntry::O,
            ScoreEntry::B,
            ScoreEntry::O,
            ScoreEntry::B,
            ScoreEntry::O,
            ScoreEntry::B,
            ScoreEntry::O,
            ScoreEntry::B,
            ScoreEntry::O,
            ScoreEntry::B,
            ScoreEntry::O,
            ScoreEntry::B,
            ScoreEntry::B,
            ScoreEntry::B,
            ScoreEntry::S,
            ScoreEntry::S,
            ScoreEntry::S,
            ScoreEntry::B,
            ScoreEntry::O,
            ScoreEntry::B,
            ScoreEntry::O,
            ScoreEntry::O,
            ScoreEntry::O,
            ScoreEntry::O,
        ]),
    };
    let beats_layout = BeatsLayout(vec![(5, 2), (6, 4)]);

    assert_eq!(
        map_score.to_script(&beats_layout),
        "O, -, O, -,\nO, -, O, -,\nO, -, O, -,\nO, -, -, -,\nS, S,\nS, -, O, -,\nO, O, O, O, "
    );
}

#[test]
fn test_bpm_changes() {
    let bpm_changes = BpmChanges(vec![(1428, 1000), (1430, 1500)]);

    assert_eq!(beats_layout_of(&bpm_changes), vec![(358, 2), (359, 4)]);
    assert_eq!(bpm_changes.entry_pos(&None), vec![(358, 0), (359, 0)]);
}

#[test]
fn layout_for_changes_on_line_breaks() {
    let bc = BpmChanges(vec![(118 * 4, 2000), (130 * 4, 4000)]);
    assert_eq!(beats_layout_of(&bc), vec![]);
    assert_eq!(bc.entry_pos(&None), vec![(119, 0), (131, 0)]);
}

#[test]
fn layout_empty_for_no_changes() {
    let bc = BpmChanges(vec![]);
    assert_eq!(beats_layout_of(&bc), vec![]);
}

#[test]
fn layout_drops_repeated_lengths() {
    // Two short lines of the same length in a row: the second pair is dropped.
    let bc = BpmChanges(vec![(6, 1000), (8, 1200)]);
    assert_eq!(beats_layout_of(&bc), vec![(2, 2), (4, 4)]);
    let bc = BpmChanges(vec![(6, 1000), (9, 1200)]);
    assert_eq!(beats_layout_of(&bc), vec![(2, 2), (3, 3), (4, 4)]);
}

#[test]
fn tempo_script_round_trip() {
    let bc = BpmChanges(vec![(1428, 1000), (1430, 1505)]);
    let script = bc.to_script();
    assert_eq!(script, "358:2,\n359:4,\n[BPM]358:100.0,\n[BPM]359:150.5,\n");
    let back = BpmChanges::from_script(&script).unwrap().unwrap();
    assert_eq!(back.0, bc.0);
    let layout = BeatsLayout::from_script(&script).unwrap().unwrap();
    assert_eq!(layout.0, vec![(358, 2), (359, 4)]);
}

#[test]
fn tempo_script_without_tempo_lines() {
    assert!(BpmChanges::from_script("\n\n").unwrap().is_none());
    assert!(BeatsLayout::from_script("\n\n").unwrap().is_none());
}

#[test]
fn tempo_script_errors() {
    assert_eq!(
        BpmChanges::from_script("3:2\n[BPM]1:100.0,\n").unwrap_err(),
        ParseError::MalformedLine(0)
    );
    assert_eq!(
        BpmChanges::from_script("[BPM]1:100.0,\n[BPM]1:120,\n").unwrap_err(),
        ParseError::MalformedLine(1)
    );
    assert_eq!(
        BpmChanges::from_script("[BPM]1:1a,\n").unwrap_err(),
        ParseError::MalformedLine(0)
    );
}

#[test]
fn tempo_script_sorts_by_index() {
    let bc = BpmChanges::from_script("[BPM]3:90,\n[BPM]2:120.5,\n").unwrap().unwrap();
    assert_eq!(bc.0, vec![(4, 1205), (8, 900)]);
}

fn score(text: &str) -> ScoreData {
    ScoreData::from_str(text).unwrap()
}

#[test]
fn score_round_trip_through_script() {
    let data = score("SO-SO-SO-SO-SO----SOS-OO");
    let layout = BeatsLayout(vec![(3, 2), (4, 4)]);
    let ms = MapScore { scores: data.clone() };
    let text = ms.to_script(&layout);
    let back = MapScore::from_score(&text).unwrap();
    assert_eq!(back.scores.0, data.0);
    assert_eq!(back.scores.to_string(), "SO-SO-SO-SO-SO----SOS-OO");
}

#[test]
fn empty_score_script_is_a_space() {
    let ms = MapScore { scores: ScoreData(vec![]) };
    assert_eq!(ms.to_script(&BeatsLayout(vec![])), " ");
    assert_eq!(MapScore::from_score(" ").unwrap().scores.0, vec![]);
}

#[test]
fn score_text_errors() {
    assert_eq!(ScoreData::from_str("O-X").unwrap_err(), ParseError::InvalidEntry(2));
    assert_eq!(MapScore::from_score("O, X,").unwrap_err(), ParseError::InvalidEntry(3));
}

#[test]
fn ten_notes_are_too_long() {
    match score("OOOOOOOOOO").validate() {
        Err(InvalidMapError::TooLongSegments(v)) => assert_eq!(v, vec![(0, 10)]),
        _ => panic!("expected a too long segment"),
    }
    assert!(score("OOOOOOOOO").validate().is_ok());
}

#[test]
fn every_long_run_is_reported() {
    match score("-SSSSSSSSSSS-OO-OOOOOOOOOO").validate() {
        Err(InvalidMapError::TooLongSegments(v)) => assert_eq!(v, vec![(1, 11), (16, 10)]),
        _ => panic!("expected too long segments"),
    }
}

#[test]
fn default_score_is_blank() {
    let ms = MapScore::default_with_len(3);
    assert_eq!(ms.scores.0, vec![ScoreEntry::B; 3]);
}

#[test]
fn tempo_round_trip_many_changes() {
    let bc = BpmChanges(vec![(0, 1200), (5, 1800), (6, 900), (13, 2400), (40, 1000)]);
    let back = BpmChanges::from_script(&bc.to_script()).unwrap().unwrap();
    assert_eq!(back.0, bc.0);
}

#[test]
fn tempo_change_inside_first_line_moves_to_its_start() {
    // A change at beat 2 is written on line 1, which then reads back as beat 0.
    let bc = BpmChanges(vec![(2, 1000)]);
    let back = BpmChanges::from_script(&bc.to_script()).unwrap().unwrap();
    assert_eq!(back.0, vec![(0, 1000)]);
}

#[test]
fn timeline_from_notes() {
    let notes = vec![(1, ScoreEntry::O), (3, ScoreEntry::S)];
    let d = ScoreData::from_notes(4, &notes).unwrap();
    assert_eq!(d.to_string(), "O-S-");
    assert!(ScoreData::from_notes(2, &notes).is_none());
    assert!(ScoreData::from_notes(2, &vec![(0, ScoreEntry::O)]).is_none());
    assert_eq!(note_of_action("PlaySound", "Hat"), Some(ScoreEntry::O));
    assert_eq!(note_of_action("PlaySound", "Hammer"), Some(ScoreEntry::S));
    assert_eq!(note_of_action("PlaySound", "Kick"), None);
    assert_eq!(note_of_action("SetSpeed", "Hat"), None);
}
