use linux_legion::spectrum::protocol::op;
use linux_legion::spectrum::protocol::{
    compress, decode_effects, encode_effects, parse_key_count, parse_key_page, parse_state,
    survivors, Effect, EffectType, EncodeError, Rgb, Rotation, REPORT_LEN,
};

/// The start of a live keyboard's `0xCC` answer (profile 2: "Always", #158DDD, 130 keys).
fn live_profile() -> Vec<u8> {
    let mut b = vec![
        0x07, 0xcc, 0xc0, 0x03, 0x02, 0x01, 0x01, 0x01, 0x06, 0x01, 0x0b, 0x02, 0x00, 0x03, 0x00, 0x04,
        0x00, 0x05, 0x02, 0x06, 0x00, 0x01, 0x15, 0x8d, 0xdd, 0x82,
    ];
    for k in 1..=130u16 {
        b.extend_from_slice(&k.to_le_bytes());
    }
    b.resize(REPORT_LEN, 0);
    b
}

fn with_colors(mut e: Effect, colors: Vec<Rgb>) -> Effect {
    e.colors = colors;
    e
}

#[test]
fn decodes_live_profile() {
    let (profile, effects) = decode_effects(&live_profile()).unwrap();
    assert_eq!(profile, 2);
    assert_eq!(effects.len(), 1);
    let e = &effects[0];
    assert_eq!(e.kind, EffectType::Always);
    assert_eq!(e.colors, vec![Rgb::new(0x15, 0x8d, 0xdd)]);
    assert_eq!(e.keys.len(), 130);
    assert_eq!(e.speed, 0);
}

#[test]
fn encode_roundtrip() {
    let effects = vec![
        Effect::new(EffectType::RainbowWave, vec![1, 2, 3]),
        with_colors(Effect::new(EffectType::Always, vec![0x42, 0x6d]), vec![Rgb::new(255, 0, 0)]),
    ];
    let pkt = encode_effects(3, &effects).unwrap();
    assert_eq!(&pkt[..7], &[0x07, 0xCB, 0xC0, 0x03, 3, 1, 1]);
    // The layer header as Vantage writes it.
    assert_eq!(&pkt[7..21], &[1, 6, 1, 2, 2, 1, 3, 0, 4, 4, 5, 0, 6, 0]);
    let mut resp = pkt;
    resp[1] = op::GET_EFFECTS;
    let (profile, back) = decode_effects(&resp).unwrap();
    assert_eq!(profile, 3);
    assert_eq!(back, effects);
}

#[test]
fn live_profile_reencodes_identically() {
    let src = live_profile();
    let (p, eff) = decode_effects(&src).unwrap();
    let pkt = encode_effects(p, &eff).unwrap();
    // Everything but the operation code is the same, byte for byte.
    assert_eq!(&pkt[2..], &src[2..]);
}

#[test]
fn all_zone_effect_uses_marker() {
    let pkt = encode_effects(1, &[Effect::new(EffectType::AudioBounce, vec![1, 2])]).unwrap();
    // no colours, one "zone" 0x0065
    assert_eq!(&pkt[21..25], &[0, 1, 0x65, 0x00]);
    let mut resp = pkt;
    resp[1] = op::GET_EFFECTS;
    assert!(decode_effects(&resp).unwrap().1[0].keys.is_empty());
}

#[test]
fn compress_later_layer_wins() {
    let base = Effect::new(EffectType::RainbowWave, vec![1, 2, 3, 4]);
    let top = Effect::new(EffectType::Always, vec![3, 4, 5]);
    let out = compress(&[base, top.clone()]);
    assert_eq!(out.len(), 2);
    assert_eq!(out[0].keys, vec![1, 2]);
    assert_eq!(out[1], top);
    // a layer hidden entirely by the ones above disappears
    let hidden = Effect::new(EffectType::Rain, vec![5]);
    assert_eq!(compress(&[hidden, top.clone()]), vec![top]);
}

#[test]
fn survivors_report_hidden_layers() {
    let all: Vec<u16> = (1..=10).collect();
    let a = Effect::new(EffectType::RainbowWave, all.clone());
    let b = Effect::new(EffectType::Always, all.clone());
    let c = Effect::new(EffectType::Always, vec![3]);
    // a second layer on the same zones hides the first entirely
    assert_eq!(survivors(&[a.clone(), b.clone()]), vec![None, Some(all.clone())]);
    // the third takes one zone from the second
    let s = survivors(&[a, b, c]);
    assert_eq!(s[0], None);
    assert_eq!(s[1].as_ref().unwrap().len(), 9);
    assert_eq!(s[2], Some(vec![3]));
    // ripple cannot be covered in part
    let r = Effect::new(EffectType::Ripple, all);
    assert_eq!(survivors(&[r, Effect::new(EffectType::Always, vec![1])])[0], None);
}

#[test]
fn compress_all_zone_effect_wins() {
    let a = Effect::new(EffectType::Always, vec![1]);
    let b = Effect::new(EffectType::AudioRipple, vec![]);
    assert_eq!(compress(&[b.clone(), a]), vec![b]);
}

#[test]
fn too_large_is_rejected() {
    let keys: Vec<u16> = (1..=200).collect();
    let layers: Vec<Effect> = (0..4).map(|_| Effect::new(EffectType::Rain, keys.clone())).collect();
    assert!(matches!(encode_effects(1, &layers), Err(EncodeError::TooLarge(_))));
}

#[test]
fn parses_state_and_key_pages() {
    let mut st = vec![0x07, 0x03, 0x8e, 0x02, 0xe9, 0x03, 0x07, 0x2f, 0x49, 0xf3, 0x03, 0x07, 0x2f, 0x49];
    st.resize(REPORT_LEN, 0);
    assert_eq!(parse_state(&st), vec![(0x3e9, Rgb::new(7, 0x2f, 0x49)), (0x3f3, Rgb::new(7, 0x2f, 0x49))]);

    let kc = [0x07, 0xc4, 0x03, 0x00, 0x07, 0x09, 0x16];
    assert_eq!(parse_key_count(&kc), Some((9, 22)));

    let mut page = vec![0x07, 0xc5, 0, 0, 7, 1, 0, 0, 0, 1, 1, 0, 2, 2, 0];
    page.resize(REPORT_LEN, 0);
    assert_eq!(&parse_key_page(&page, 4), &[0, 1, 2, 0]);
}

#[test]
fn normalize_fills_defaults() {
    let mut e = Effect::new(EffectType::Always, vec![1]);
    assert_eq!(e.colors.len(), 1);
    e.kind = EffectType::RainbowScrew;
    e.normalize();
    assert!(e.colors.is_empty());
    assert_eq!(e.rotation, Rotation::Clockwise);
    assert_eq!(e.speed, 1);
}

#[test]
fn normalize_twice_is_normalize_once() {
    for kind in EffectType::EDITABLE {
        let mut e = Effect::new(EffectType::Always, vec![1, 2]);
        e.kind = kind;
        e.speed = 9;
        e.normalize();
        let once = e.clone();
        e.normalize();
        assert_eq!(e, once);
    }
}

#[test]
fn compressed_layers_are_disjoint_and_compress_again_to_themselves() {
    let a = Effect::new(EffectType::Always, vec![1, 2, 3, 4]);
    let b = Effect::new(EffectType::Rain, vec![3, 4, 5, 3]);
    let c = Effect::new(EffectType::Always, vec![5, 6]);
    let once = compress(&[a, b, c]);
    assert_eq!(once.iter().map(|e| e.keys.clone()).collect::<Vec<_>>(), vec![vec![1, 2], vec![3, 4], vec![5, 6]]);
    for i in 0..once.len() {
        for j in i + 1..once.len() {
            assert!(once[i].keys.iter().all(|k| !once[j].keys.contains(k)));
        }
    }
    assert_eq!(compress(&once), once);
    let wave = Effect::new(EffectType::AuroraSync, vec![]);
    let twice = compress(&compress(&[Effect::new(EffectType::Always, vec![1]), wave.clone()]));
    assert_eq!(twice, vec![wave]);
}
