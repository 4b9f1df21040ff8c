use linux_legion::spectrum::device::KeyMatrix;
use linux_legion::spectrum::layout::{
    build, case_group, layer_subtitle, main_row, preset, Group, Place, Preset, LOGO, UNITS_PER_KEY,
};
use linux_legion::spectrum::sim::{LOGO as SIM_LOGO, MATRIX};
use linux_legion::spectrum::protocol::{Effect, EffectType};

#[test]
fn case_zones_are_grouped_by_code() {
    assert_eq!(case_group(0x3E9), Some(Group::Rear));
    assert_eq!(case_group(0x3FF), Some(Group::Rear));
    assert_eq!(case_group(0x400), None);
    assert_eq!(case_group(0x1F5), Some(Group::Side));
    assert_eq!(case_group(0x1FE), Some(Group::Side));
    assert_eq!(case_group(0x1F7), Some(Group::Front));
    assert_eq!(case_group(0x1FC), Some(Group::Front));
    assert_eq!(case_group(LOGO), Some(Group::Logo));
    assert_eq!(case_group(0x43), None);
}

#[test]
fn presets_pick_their_zones_in_order() {
    let zones = vec![
        (0x01, Group::Keys),
        (0x43, Group::Keys),
        (0x16, Group::Keys),
        (0x11, Group::Numpad),
        (0x3E9, Group::Rear),
        (0x9D, Group::Keys),
        (LOGO, Group::Logo),
    ];
    assert_eq!(preset(&zones, Preset::All).len(), 7);
    assert_eq!(preset(&zones, Preset::Keyboard), vec![0x01, 0x43, 0x16, 0x11, 0x9D]);
    assert_eq!(preset(&zones, Preset::Case), vec![0x3E9, LOGO]);
    assert_eq!(preset(&zones, Preset::Wasd), vec![0x43]);
    assert_eq!(preset(&zones, Preset::Arrows), vec![0x9D]);
    assert_eq!(preset(&zones, Preset::FRow), vec![0x01, 0x11]);
    assert_eq!(preset(&zones, Preset::Digits), vec![0x16]);
    assert_eq!(Preset::FRow.label(), "F-ряд");
    assert_eq!(Preset::ALL.len(), 7);
}

#[test]
fn layer_subtitles_name_zones_and_speed() {
    assert_eq!(layer_subtitle(&Effect::new(EffectType::RainbowWave, vec![1, 2, 3])), "зон: 3 · скорость 1");
    assert_eq!(layer_subtitle(&Effect::new(EffectType::Always, vec![1])), "зон: 1");
    assert_eq!(layer_subtitle(&Effect::new(EffectType::AudioBounce, vec![])), "все зоны");
}

fn live_matrix() -> KeyMatrix {
    KeyMatrix { width: 22, height: 9, rows: MATRIX.iter().map(|r| r.to_vec()).collect(), extra: vec![SIM_LOGO] }
}

#[test]
fn every_zone_of_live_keyboard_is_placed() {
    let m = live_matrix();
    let zones = build(&m);
    let codes: Vec<u16> = zones.iter().map(|z| z.code).collect();
    for c in m.codes() {
        if c != LOGO {
            assert!(codes.contains(&c), "zone 0x{c:X} is not placed");
        }
    }
    // no "unknown" zone
    assert!(zones.iter().all(|z| z.label != "?"));
    assert_eq!(zones.iter().filter(|z| z.group == Group::Rear).count(), 18);
    assert_eq!(zones.iter().filter(|z| z.group == Group::Front).count(), 6);
    assert_eq!(zones.iter().filter(|z| z.group == Group::Side).count(), 4);
}

#[test]
fn main_rows_have_equal_width() {
    for i in 0..6 {
        let (_, _, row) = main_row(i);
        let w: f32 = row.iter().map(|r| r.2 as f32 / UNITS_PER_KEY as f32).sum();
        assert!((w - 15.0).abs() < 0.01 || w < 15.0, "row {w}");
    }
}

#[test]
fn sides_split_left_right() {
    let zones = build(&live_matrix());
    let left: Vec<u16> = zones
        .iter()
        .filter(|z| z.group == Group::Side && matches!(z.place, Place::Strip { x, .. } if x < UNITS_PER_KEY))
        .map(|z| z.code)
        .collect();
    assert_eq!(left, vec![0x1F5, 0x1F6]);
}

#[test]
fn unknown_zones_go_below_in_order() {
    let m = KeyMatrix { width: 3, height: 1, rows: vec![vec![0x700, 0x01, 0x700]], extra: vec![0x701, LOGO] };
    let zones = build(&m);
    assert_eq!(zones.len(), 4);
    assert_eq!((zones[0].code, zones[0].group), (0x01, Group::Keys));
    assert_eq!(zones[0].place, Place::Fixed { x: 56, y: 56, w: 75, h: 64 });
    assert_eq!((zones[1].code, zones[1].label, zones[1].group, zones[1].place), (LOGO, "LEGION", Group::Logo, Place::Lid));
    assert_eq!((zones[2].code, zones[2].label, zones[2].place), (0x700, "?", Place::Spare { k: 0 }));
    assert_eq!((zones[3].code, zones[3].place), (0x701, Place::Spare { k: 1 }));
}

#[test]
fn rear_zones_follow_matrix_columns() {
    let m = KeyMatrix { width: 3, height: 2, rows: vec![vec![0, 0x3EA, 0], vec![0x3E9, 0, 0]], extra: vec![0x3EB] };
    let zones = build(&m);
    let rear: Vec<(u16, Place)> = zones.iter().filter(|z| z.group == Group::Rear).map(|z| (z.code, z.place)).collect();
    assert_eq!(
        rear,
        vec![
            (0x3E9, Place::Strip { horizontal: true, x: 56, y: 0, len: 1560, i: 0, n: 3 }),
            (0x3EA, Place::Strip { horizontal: true, x: 56, y: 0, len: 1560, i: 1, n: 3 }),
            (0x3EB, Place::Strip { horizontal: true, x: 56, y: 0, len: 1560, i: 2, n: 3 }),
        ]
    );
}
