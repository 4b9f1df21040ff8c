//! The lighting page's editor of effect layers: adding a layer on the
//! selected zones (or on all of them), moving a layer up or down, deleting
//! it, one effect on the whole keyboard, and the colour list of a layer.
//! Layers are listed bottom first; the last one is on top.

use vstd::prelude::*;
use super::device::KeyMatrix;
use super::layout::{build, build_spec, preset, preset_spec, zone_views, Group, Preset, Zone, ZoneModel};
use super::protocol::{models, normalized, Effect, EffectModel, EffectType, Rgb};
use super::sim::new_effect;

verus! {

/// The `(code, group)` of each placed zone.
pub open spec fn zone_pairs_spec(zs: Seq<ZoneModel>) -> Seq<(u16, Group)> {
    Seq::new(zs.len(), |i: int| (zs[i].code, zs[i].group))
}

/// The `(code, group)` of each placed zone, as the selections take them.
pub fn zone_pairs(zones: &Vec<Zone>) -> (r: Vec<(u16, Group)>)
    ensures
        r@ == zone_pairs_spec(zone_views(zones@)),
{
    let mut r: Vec<(u16, Group)> = Vec::new();
    let mut i: usize = 0;
    while i < zones.len()
        invariant
            i <= zones@.len(),
            r@ == zone_pairs_spec(zone_views(zones@).take(i as int)),
        decreases zones@.len() - i,
    {
        r.push((zones[i].code, zones[i].group));
        i = i + 1;
        assert(r@ =~= zone_pairs_spec(zone_views(zones@).take(i as int)));
    }
    assert(zone_views(zones@).take(i as int) =~= zone_views(zones@));
    r
}

/// Every zone of matrix `m`, in the order the layout places them.
pub open spec fn all_zones_spec(m: KeyMatrix) -> Seq<u16> {
    preset_spec(zone_pairs_spec(build_spec(m)), Preset::All)
}

/// Every zone of the keyboard with zone matrix `matrix`.
pub fn all_zones(matrix: &KeyMatrix) -> (r: Vec<u16>)
    ensures
        r@ == all_zones_spec(*matrix),
{
    let zones = build(matrix);
    let pairs = zone_pairs(&zones);
    preset(&pairs, Preset::All)
}

/// A new layer "always on" over the selected zones, or over every zone when
/// none is selected; it goes on top, and its index is returned as the layer
/// now selected.
pub fn new_layer(edit: &mut Vec<Effect>, sel: &Vec<u16>, matrix: &KeyMatrix) -> (layer: usize)
    ensures
        models(final(edit)@) == models(old(edit)@).push(
            new_effect(
                EffectType::Always,
                if sel@.len() == 0 {
                    all_zones_spec(*matrix)
                } else {
                    sel@
                },
            ),
        ),
        layer == old(edit)@.len(),
{
    let keys = if sel.len() == 0 {
        all_zones(matrix)
    } else {
        let k = sel.clone();
        assert(k@ =~= sel@);
        k
    };
    let n = edit.len();
    edit.push(Effect::new(EffectType::Always, keys));
    assert(models(edit@) =~= models(old(edit)@).push(edit@[n as int]@));
    n
}

/// Layer `i` moved one place up (`up`) or down: it changes places with its
/// neighbour, and the neighbour's index, where it now is, is returned as the
/// layer now selected.
pub fn move_layer(edit: &mut Vec<Effect>, i: usize, up: bool) -> (sel: usize)
    requires
        i < old(edit)@.len(),
        up ==> i + 1 < old(edit)@.len(),
        !up ==> i >= 1,
    ensures
        sel == (if up {
            i + 1
        } else {
            i - 1
        }),
        final(edit)@ == old(edit)@.update(i as int, old(edit)@[sel as int]).update(
            sel as int,
            old(edit)@[i as int],
        ),
{
    let n = edit.len();
    assert(up ==> i + 1 < n);
    let j = if up {
        i + 1
    } else {
        i - 1
    };
    let e = edit.remove(i);
    edit.insert(j, e);
    assert(edit@ =~= old(edit)@.update(i as int, old(edit)@[j as int]).update(
        j as int,
        old(edit)@[i as int],
    ));
    j
}

/// Layer `i` deleted. The layer now selected is the one at its place, or the
/// top one when it was on top; none when no layer is left.
pub fn delete_layer(edit: &mut Vec<Effect>, i: usize) -> (sel: Option<usize>)
    requires
        i < old(edit)@.len(),
    ensures
        final(edit)@ == old(edit)@.remove(i as int),
        sel == (if final(edit)@.len() == 0 {
            None
        } else if i < final(edit)@.len() {
            Some(i)
        } else {
            Some((final(edit)@.len() - 1) as usize)
        }),
{
    edit.remove(i);
    let left = edit.len();
    if left == 0 {
        None
    } else if i < left {
        Some(i)
    } else {
        Some(left - 1)
    }
}

/// The profile "one effect on everything": a rainbow wave over every zone.
pub fn whole_keyboard_layer(matrix: &KeyMatrix) -> (v: Vec<Effect>)
    ensures
        models(v@) == seq![new_effect(EffectType::RainbowWave, all_zones_spec(*matrix))],
{
    let mut v: Vec<Effect> = Vec::new();
    v.push(Effect::new(EffectType::RainbowWave, all_zones(matrix)));
    assert(models(v@) =~= seq![new_effect(EffectType::RainbowWave, all_zones_spec(*matrix))]);
    v
}

/// Most colours a layer's list takes from the palette.
pub const MAX_COLORS: usize = 8;

/// Layer `e` with colour list `colors`, its parameters brought in line with
/// its kind, as every edit of a layer leaves it.
pub open spec fn with_colors(e: EffectModel, colors: Seq<Rgb>) -> EffectModel {
    normalized(EffectModel { colors, ..e })
}

/// An edit of the colour list keeps the layer's kind and the speed chosen for
/// it: a speed in 1..=3 stays as it was, whatever the new list.
pub proof fn law_color_edit_keeps_speed(e: EffectModel, colors: Seq<Rgb>)
    ensures
        with_colors(e, colors).kind == e.kind,
        e.kind.has_speed() && 1 <= e.speed <= 3 ==> with_colors(e, colors).speed == e.speed,
{
}

/// Colour `k` taken out of the layer's list (a click on a chosen colour).
pub fn remove_color(e: &mut Effect, k: usize)
    requires
        k < old(e).colors@.len(),
    ensures
        final(e)@ == with_colors(old(e)@, old(e)@.colors.remove(k as int)),
{
    e.colors.remove(k);
    e.normalize();
}

/// Colour `c` added at the end of the list (a click on the palette), while the
/// list has fewer than [`MAX_COLORS`].
pub fn add_color(e: &mut Effect, c: Rgb)
    ensures
        final(e)@ == with_colors(
            old(e)@,
            if old(e)@.colors.len() < MAX_COLORS {
                old(e)@.colors.push(c)
            } else {
                old(e)@.colors
            },
        ),
{
    if e.colors.len() < MAX_COLORS {
        e.colors.push(c);
    }
    e.normalize();
}

/// Colour `c` from the picker: it replaces the last colour, or is added when
/// the list is empty.
pub fn pick_color(e: &mut Effect, c: Rgb)
    ensures
        final(e)@ == with_colors(
            old(e)@,
            if old(e)@.colors.len() > 0 {
                old(e)@.colors.update(old(e)@.colors.len() - 1, c)
            } else {
                seq![c]
            },
        ),
{
    let n = e.colors.len();
    if n > 0 {
        e.colors.set(n - 1, c);
    } else {
        e.colors.push(c);
        assert(e.colors@ =~= seq![c]);
    }
    e.normalize();
}

/// The list emptied: the layer then takes random colours.
pub fn clear_colors(e: &mut Effect)
    ensures
        final(e)@ == with_colors(old(e)@, Seq::empty()),
{
    e.colors.clear();
    e.normalize();
}

} // verus!
