use linux_legion::spectrum::device::{
    feature_report_len, hidioc, parse_hid_id, Keyboard, Transport, HIDIOCGFEATURE, HIDIOCSFEATURE,
};
use linux_legion::spectrum::protocol::{op, parse_state, request, Effect, EffectType, Rgb};
use linux_legion::spectrum::sim::{all_codes, SimTransport, LOGO};

/// The report descriptor of the Spectrum interface of a Legion Pro 7 16IAX10H (its start).
const DESC: &[u8] = &[
    0x06, 0x89, 0xff, 0x09, 0x10, 0xa1, 0x01, 0x85, 0x5a, 0x09, 0x01, 0x15, 0x00, 0x26, 0xff, 0x00,
    0x75, 0x08, 0x95, 0x10, 0xb1, 0x00, 0xc0, 0x06, 0x89, 0xff, 0x09, 0x07, 0xa1, 0x01, 0x85, 0x07,
    0x09, 0x01, 0x15, 0x00, 0x26, 0xff, 0x00, 0x75, 0x08, 0x96, 0xbf, 0x03, 0xb1, 0x00, 0xc0,
];

#[test]
fn ioctl_numbers() {
    assert_eq!(HIDIOCSFEATURE, 0xC3C0_4806);
    assert_eq!(HIDIOCGFEATURE, 0xC3C0_4807);
}

#[test]
fn finds_report_length() {
    assert_eq!(feature_report_len(DESC, 0x07), Some(959));
    assert_eq!(feature_report_len(DESC, 0x5A), Some(16));
    assert_eq!(feature_report_len(DESC, 0x01), None);
}

#[test]
fn parses_uevent() {
    assert_eq!(parse_hid_id("HID_ID=0003:0000048D:0000C197\n"), Some((0x048D, 0xC197)));
}

#[test]
fn simulated_keyboard_roundtrip() {
    let mut kb = Keyboard::connect(SimTransport::new()).map_err(|(_, e)| e).unwrap();
    let m = kb.key_matrix().unwrap();
    assert_eq!((m.width, m.height), (22, 9));
    assert_eq!(m.extra, vec![LOGO]);
    assert_eq!(kb.profile().unwrap(), 3);
    kb.set_profile(2).unwrap();
    assert_eq!(kb.profile().unwrap(), 2);
    let e = vec![Effect::new(EffectType::Rain, vec![1, 2, 3])];
    kb.set_effects(5, &e).unwrap();
    assert_eq!(kb.effects(5).unwrap(), e);
    assert!(!kb.state().unwrap().unwrap().is_empty());
}

#[test]
fn hidioc_packs_direction_size_and_number() {
    assert_eq!(hidioc(6, 960), 0xC3C0_4806);
    assert_eq!(hidioc(7, 1), 0xC001_4807);
}

#[test]
fn uevent_with_other_lines_and_lower_case() {
    let text = "DRIVER=hid-generic\r\nHID_ID=0003:0000048d:0000c9a5\r\nHID_NAME=ITE Tech\n";
    assert_eq!(parse_hid_id(text), Some((0x048D, 0xC9A5)));
    assert_eq!(parse_hid_id("HID_NAME=x\n"), None);
    assert_eq!(parse_hid_id("HID_ID=0003:zz:0001\n"), None);
}

#[test]
fn simulated_keyboard_reads_back_brightness_and_logo() {
    let mut kb = Keyboard::connect(SimTransport::new()).map_err(|(_, e)| e).unwrap();
    kb.set_brightness(7).unwrap();
    assert_eq!(kb.brightness().unwrap(), 7);
    kb.set_logo(false).unwrap();
    assert!(!kb.logo().unwrap());
    kb.set_logo(true).unwrap();
    assert!(kb.logo().unwrap());
}

#[test]
fn first_frame_lists_every_zone_in_code_order() {
    let mut t = SimTransport::new();
    let r = t.get_feature().unwrap();
    assert_eq!((r[0], r[1]), (0x07, 0x03));
    let codes: Vec<u16> = parse_state(&r).iter().map(|(k, _)| *k).collect();
    let mut expected = all_codes();
    expected.sort();
    assert_eq!(codes, expected);
    assert!(codes.windows(2).all(|w| w[0] < w[1]));
    assert!(r[4 + 5 * codes.len()..].iter().all(|&b| b == 0));
}

#[test]
fn frame_orders_zones_keeps_the_last_colour_and_hides_a_dark_logo() {
    let red = Rgb::new(255, 0, 0);
    let blue = Rgb::new(0, 0, 255);
    let dark = Rgb::new(0, 0, 0);
    let mut t = SimTransport::new();
    t.set_frame(vec![(LOGO, red), (0x20, red), (0x05, red), (0x20, blue)]);
    let mut expected: Vec<(u16, Rgb)> = all_codes().into_iter().map(|k| (k, dark)).collect();
    expected.sort_by_key(|(k, _)| *k);
    for (k, c) in expected.iter_mut() {
        *c = match *k {
            0x05 => red,
            0x20 => blue,
            LOGO => red,
            _ => dark,
        };
    }
    assert_eq!(parse_state(&t.get_feature().unwrap()), expected);
    t.set_feature(&request(op::SET_LOGO, &[0])).unwrap();
    expected.retain(|(k, _)| *k != LOGO);
    assert_eq!(parse_state(&t.get_feature().unwrap()), expected);
}

#[test]
fn simulated_keyboard_starts_with_brightness_five_and_a_lit_logo() {
    let mut kb = Keyboard::connect(SimTransport::new()).map_err(|(_, e)| e).unwrap();
    assert_eq!(kb.brightness().unwrap(), 5);
    assert!(kb.logo().unwrap());
    kb.set_brightness(200).unwrap();
    assert_eq!(kb.brightness().unwrap(), 9);
}

#[test]
fn reset_profile_brings_back_the_factory_layers() {
    let mut kb = Keyboard::connect(SimTransport::new()).map_err(|(_, e)| e).unwrap();
    kb.set_effects(2, &[Effect::new(EffectType::Rain, vec![1, 2, 3])]).unwrap();
    kb.reset_profile(2).unwrap();
    let expected = vec![Effect { colors: vec![Rgb::new(0x15, 0x8d, 0xdd)], ..Effect::new(EffectType::Always, all_codes()) }];
    assert_eq!(kb.effects(2).unwrap(), expected);
}

#[test]
fn simulated_keyboard_reads_the_whole_zone_matrix() {
    let mut kb = Keyboard::connect(SimTransport::new()).map_err(|(_, e)| e).unwrap();
    let m = kb.key_matrix().unwrap();
    assert_eq!(m.rows.len(), 9);
    for (y, row) in m.rows.iter().enumerate() {
        assert_eq!(row, &linux_legion::spectrum::sim::MATRIX[y].to_vec());
    }
    assert_eq!(m.extra, vec![LOGO]);
}
