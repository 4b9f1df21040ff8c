use linux_legion::spectrum::device::{KeyMatrix, Keyboard};
use linux_legion::spectrum::editor::{
    add_color, all_zones, clear_colors, delete_layer, move_layer, new_layer, pick_color, remove_color,
    whole_keyboard_layer,
};
use linux_legion::spectrum::protocol::{Effect, EffectType, Rgb};
use linux_legion::spectrum::sim::{all_codes, SimTransport};

fn sim_matrix() -> KeyMatrix {
    let mut kb = Keyboard::connect(SimTransport::new()).map_err(|(_, e)| e).unwrap();
    kb.key_matrix().unwrap()
}

#[test]
fn new_layer_goes_on_the_selection_or_on_every_zone() {
    let m = sim_matrix();
    let mut edit = Vec::new();
    assert_eq!(new_layer(&mut edit, &vec![0x43, 0x58], &m), 0);
    assert_eq!(edit[0], Effect::new(EffectType::Always, vec![0x43, 0x58]));
    assert_eq!(new_layer(&mut edit, &vec![], &m), 1);
    let all = all_zones(&m);
    let mut sorted = all.clone();
    sorted.sort();
    let mut codes = all_codes();
    codes.sort();
    assert_eq!(sorted, codes);
    assert_eq!(edit[1], Effect::new(EffectType::Always, all));
}

#[test]
fn layers_move_and_the_selection_follows() {
    let a = Effect::new(EffectType::Always, vec![1]);
    let b = Effect::new(EffectType::Rain, vec![2]);
    let c = Effect::new(EffectType::Smooth, vec![3]);
    let mut edit = vec![a.clone(), b.clone(), c.clone()];
    assert_eq!(move_layer(&mut edit, 0, true), 1);
    assert_eq!(edit, vec![b.clone(), a.clone(), c.clone()]);
    assert_eq!(move_layer(&mut edit, 2, false), 1);
    assert_eq!(edit, vec![b, c, a]);
}

#[test]
fn deleting_a_layer_selects_its_place_or_the_top() {
    let mut edit = vec![
        Effect::new(EffectType::Always, vec![1]),
        Effect::new(EffectType::Rain, vec![2]),
        Effect::new(EffectType::Smooth, vec![3]),
    ];
    assert_eq!(delete_layer(&mut edit, 1), Some(1));
    assert_eq!(edit.len(), 2);
    assert_eq!(edit[1].kind, EffectType::Smooth);
    assert_eq!(delete_layer(&mut edit, 1), Some(0));
    assert_eq!(delete_layer(&mut edit, 0), None);
    assert!(edit.is_empty());
}

#[test]
fn one_effect_on_the_whole_keyboard() {
    let m = sim_matrix();
    let v = whole_keyboard_layer(&m);
    assert_eq!(v, vec![Effect::new(EffectType::RainbowWave, all_zones(&m))]);
}

#[test]
fn colour_list_edits() {
    let red = Rgb::new(255, 0, 0);
    let blue = Rgb::new(0, 48, 255);
    let mut e = Effect::new(EffectType::ColorChange, vec![1, 2]);
    assert!(e.colors.is_empty());
    for _ in 0..10 {
        add_color(&mut e, red);
    }
    assert_eq!(e.colors.len(), 8);
    pick_color(&mut e, blue);
    assert_eq!(e.colors[7], blue);
    remove_color(&mut e, 0);
    assert_eq!(e.colors.len(), 7);
    assert_eq!(e.colors[6], blue);
    clear_colors(&mut e);
    assert!(e.colors.is_empty());
    pick_color(&mut e, blue);
    assert_eq!(e.colors, vec![blue]);
}
