use spell_bubble_mod_tool::acb::{patch_acb_preview, patch_preview_at};
use spell_bubble_mod_tool::exefs::{
    ips_file_content, ips_file_name, AArch64Instruction, InstructionPatch,
};
use spell_bubble_mod_tool::metadata::{vec_push_idx, FieldDefaultValue, FieldDefinition};
use spell_bubble_mod_tool::osu::{HitObject, OsuParseError};

#[test]
fn ips_name_is_upper_hex() {
    let id = [0x0a, 0xff, 0x10, 0x01];
    assert_eq!(ips_file_name(&id), "0AFF1001.ips");
}

#[test]
fn ips_content_layout() {
    let patches = vec![InstructionPatch {
        offset: 0x10,
        instruction: AArch64Instruction::parse("cmp w20, #0x110").unwrap(),
        override_patch: false,
    }];
    let bytes = ips_file_content(&patches, 5);
    let mut expected = b"IPS32".to_vec();
    expected.extend_from_slice(&[0, 0, 0x01, 0x10, 0, 4]);
    expected.extend_from_slice(&0x7104569Fu32.to_le_bytes());
    expected.extend_from_slice(b"EEOF");
    assert_eq!(bytes, expected);
}

#[test]
fn instruction_text_round_trip() {
    let i = AArch64Instruction::parse("cmp w20, #0x110").unwrap();
    assert_eq!(i.to_text(), "CMP W20, #0x110");
    assert_eq!(AArch64Instruction::parse(&i.to_text()).unwrap(), i);
}

#[test]
fn preview_written_after_track_event() {
    let mut content = vec![0u8; 4];
    content.push(0x0A);
    content.extend_from_slice(b"TrackEvent\0");
    content.extend_from_slice(&[0u8; 0x30]);
    let idx = 5;
    let out = patch_acb_preview(content.clone(), 0x0012_3456);
    let mut expected = content.clone();
    expected[idx + 0x17] = 0x12;
    expected[idx + 0x17 + 1] = 0x34;
    expected[idx + 0x17 + 2] = 0x56;
    assert_eq!(out, expected);
    assert_eq!(patch_preview_at(content.clone(), idx, 0x0012_3456), expected);
}

#[test]
fn preview_default_distance() {
    let mut content = vec![0x11u8];
    content.extend_from_slice(b"TrackEvent\0");
    content.extend_from_slice(&[0u8; 0x30]);
    let out = patch_acb_preview(content.clone(), 1000);
    assert_eq!(&out[1 + 0x21..1 + 0x24], &[0x00, 0x03, 0xE8]);
}

#[test]
fn preview_without_table_is_unchanged() {
    let content = b"no table here".to_vec();
    assert_eq!(patch_acb_preview(content.clone(), 5), content);
}

#[test]
fn metadata_records_round_trip() {
    let d = FieldDefinition { name_index: 1, type_index: 0x0102_0304, token: 0x0400_0001 };
    assert_eq!(d.to_bytes(), vec![1, 0, 0, 0, 4, 3, 2, 1, 1, 0, 0, 4]);
    let v = FieldDefaultValue { field_index: 7, type_index: 300, data_index: 0xFFFF_FFFF };
    let b = v.to_bytes();
    assert_eq!(b, vec![7, 0, 0, 0, 44, 1, 0, 0, 255, 255, 255, 255]);
    assert_eq!(FieldDefaultValue::from_bytes(&b), v);
}

#[test]
fn push_gives_index() {
    let mut v = vec![1, 2];
    assert_eq!(vec_push_idx(&mut v, 9), 2);
    assert_eq!(v, vec![1, 2, 9]);
}

#[test]
fn hit_objects() {
    let s = HitObject::Slider { time: 10, duration_time: 200, slides: 2 };
    assert_eq!((s.time(), s.duration_time(), s.strong_point()), (10, 200, 2));
    let c = HitObject::HitCircle { time: 5 };
    assert_eq!((c.time(), c.duration_time(), c.strong_point()), (5, 0, 0));
    let p = HitObject::Spinner { time: 1, duration_time: 9 };
    assert_eq!(p.strong_point(), -1);
    assert_eq!(OsuParseError::err_tp().to_string(), "Wrong timing point format");
}
