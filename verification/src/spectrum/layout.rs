//! Placement of the lighting zones for the visual editor: which part of the
//! laptop a zone belongs to, where it is drawn, the quick selections and the
//! captions of layers.
//!
//! Measures are in 80ths of a key (80 is the width of an ordinary key), in
//! which every fixed measure of the layout is whole. The main block is 15
//! keys wide, the numeric block 4 keys wide after half a key. The case zones
//! (rear vents, sides, front strip) are laid out around the keyboard in the
//! order in which the controller's matrix gives them.

use vstd::prelude::*;
use vstd::relations::{sorted_by, total_ordering};

use crate::spectrum::device::{distinct_codes, first_position, index_in, rows_view, KeyMatrix};
use crate::spectrum::protocol::Effect;
use crate::text::{decimal_spec, push_decimal};

verus! {

#[derive(Clone, Copy, Debug, PartialEq, Eq, Hash, Structural)]
pub enum Group {
    Keys,
    Numpad,
    Rear,
    Side,
    Front,
    Logo,
}

/// The logo on the lid.
pub const LOGO: u16 = 0x5DD;

/// The case part that zone `code` lights, if it is a case zone.
pub open spec fn case_group_spec(code: u16) -> Option<Group> {
    if 0x3E9 <= code <= 0x3FF {
        Some(Group::Rear)
    } else if code == 0x1F5 || code == 0x1F6 || code == 0x1FD || code == 0x1FE {
        Some(Group::Side)
    } else if 0x1F7 <= code <= 0x1FC {
        Some(Group::Front)
    } else if code == LOGO {
        Some(Group::Logo)
    } else {
        None
    }
}

/// Classifies the case zones by code.
pub fn case_group(code: u16) -> (r: Option<Group>)
    ensures
        r == case_group_spec(code),
{
    if 0x3E9 <= code && code <= 0x3FF {
        Some(Group::Rear)
    } else if code == 0x1F5 || code == 0x1F6 || code == 0x1FD || code == 0x1FE {
        Some(Group::Side)
    } else if 0x1F7 <= code && code <= 0x1FC {
        Some(Group::Front)
    } else if code == LOGO {
        Some(Group::Logo)
    } else {
        None
    }
}

/// Ready-made selections.
#[derive(Clone, Copy, Debug, PartialEq, Eq, Structural)]
pub enum Preset {
    All,
    Keyboard,
    Case,
    Wasd,
    Arrows,
    FRow,
    Digits,
}

impl Preset {
    pub const ALL: [Preset; 7] = [
        Preset::All,
        Preset::Keyboard,
        Preset::Case,
        Preset::Wasd,
        Preset::Arrows,
        Preset::FRow,
        Preset::Digits,
    ];

    pub open spec fn label_text(self) -> Seq<char> {
        match self {
            Preset::All => "Все зоны"@,
            Preset::Keyboard => "Клавиатура"@,
            Preset::Case => "Корпус"@,
            Preset::Wasd => "WASD"@,
            Preset::Arrows => "Стрелки"@,
            Preset::FRow => "F-ряд"@,
            Preset::Digits => "Цифры"@,
        }
    }

    pub fn label(self) -> (s: &'static str)
        ensures
            s@ == self.label_text(),
    {
        match self {
            Preset::All => "Все зоны",
            Preset::Keyboard => "Клавиатура",
            Preset::Case => "Корпус",
            Preset::Wasd => "WASD",
            Preset::Arrows => "Стрелки",
            Preset::FRow => "F-ряд",
            Preset::Digits => "Цифры",
        }
    }

    /// Whether a zone of this code and group belongs to the selection.
    pub open spec fn picks(self, code: u16, group: Group) -> bool {
        match self {
            Preset::All => true,
            Preset::Keyboard => group == Group::Keys || group == Group::Numpad,
            Preset::Case => group == Group::Rear || group == Group::Side || group == Group::Front
                || group == Group::Logo,
            Preset::Wasd => code == 0x43 || code == 0x6D || code == 0x6E || code == 0x58,
            Preset::Arrows => code == 0x9C || code == 0x9D || code == 0x9F || code == 0xA1,
            Preset::FRow => 0x01 <= code <= 0x14,
            Preset::Digits => 0x16 <= code <= 0x22,
        }
    }

    fn pick(self, code: u16, group: Group) -> (r: bool)
        ensures
            r == self.picks(code, group),
    {
        match self {
            Preset::All => true,
            Preset::Keyboard => group == Group::Keys || group == Group::Numpad,
            Preset::Case => group == Group::Rear || group == Group::Side || group == Group::Front
                || group == Group::Logo,
            Preset::Wasd => code == 0x43 || code == 0x6D || code == 0x6E || code == 0x58,
            Preset::Arrows => code == 0x9C || code == 0x9D || code == 0x9F || code == 0xA1,
            Preset::FRow => 0x01 <= code && code <= 0x14,
            Preset::Digits => 0x16 <= code && code <= 0x22,
        }
    }
}

/// The codes of the zones `(code, group)` that selection `name` takes, in
/// their order.
pub open spec fn preset_spec(zones: Seq<(u16, Group)>, name: Preset) -> Seq<u16>
    decreases zones.len(),
{
    if zones.len() == 0 {
        seq![]
    } else {
        let rest = preset_spec(zones.drop_last(), name);
        if name.picks(zones.last().0, zones.last().1) {
            rest.push(zones.last().0)
        } else {
            rest
        }
    }
}

/// The zones of a selection, from the placed zones `(code, group)`.
pub fn preset(zones: &Vec<(u16, Group)>, name: Preset) -> (r: Vec<u16>)
    ensures
        r@ == preset_spec(zones@, name),
{
    let mut r: Vec<u16> = Vec::new();
    let mut i: usize = 0;
    while i < zones.len()
        invariant
            i <= zones@.len(),
            r@ == preset_spec(zones@.subrange(0, i as int), name),
        decreases zones@.len() - i,
    {
        assert(zones@.subrange(0, i + 1).drop_last() =~= zones@.subrange(0, i as int));
        let (code, group) = zones[i];
        if name.pick(code, group) {
            r.push(code);
        }
        i = i + 1;
    }
    assert(zones@.subrange(0, i as int) =~= zones@);
    r
}


/// The caption under a layer in the editor: its zones, and its speed where
/// the effect has one.
pub open spec fn layer_subtitle_text(e: Effect) -> Seq<char> {
    let zones = if e.kind.is_all_zones() {
        "все зоны"@
    } else {
        "зон: "@ + decimal_spec(e.keys@.len())
    };
    if e.kind.has_speed() {
        zones + " · скорость "@ + decimal_spec(e.speed as nat)
    } else {
        zones
    }
}

pub fn layer_subtitle(e: &Effect) -> (s: String)
    ensures
        s@ == layer_subtitle_text(*e),
{
    let mut s = String::new();
    if e.kind.is_all_zones() {
        s.append("все зоны");
    } else {
        s.append("зон: ");
        push_decimal(&mut s, e.keys.len() as u64);
    }
    if e.kind.has_speed() {
        s.append(" · скорость ");
        push_decimal(&mut s, e.speed as u64);
    }
    s
}


/// Row 0 of the main block: (code, caption, width); code 0 is a gap.
pub const ROW0: [(u16, &'static str, u64); 16] = [
    (0x01, "Esc", 75),
    (0x02, "F1", 75),
    (0x03, "F2", 75),
    (0x04, "F3", 75),
    (0x05, "F4", 75),
    (0x06, "F5", 75),
    (0x07, "F6", 75),
    (0x08, "F7", 75),
    (0x09, "F8", 75),
    (0x0A, "F9", 75),
    (0x0B, "F10", 75),
    (0x0C, "F11", 75),
    (0x0D, "F12", 75),
    (0x0E, "Ins", 75),
    (0x0F, "PrtSc", 75),
    (0x10, "Del", 75),
];

/// Row 1 of the main block: (code, caption, width); code 0 is a gap.
pub const ROW1: [(u16, &'static str, u64); 14] = [
    (0x16, "`", 80),
    (0x17, "1", 80),
    (0x18, "2", 80),
    (0x19, "3", 80),
    (0x1A, "4", 80),
    (0x1B, "5", 80),
    (0x1C, "6", 80),
    (0x1D, "7", 80),
    (0x1E, "8", 80),
    (0x1F, "9", 80),
    (0x20, "0", 80),
    (0x21, "-", 80),
    (0x22, "=", 80),
    (0x38, "Backspace", 160),
];

/// Row 2 of the main block: (code, caption, width); code 0 is a gap.
pub const ROW2: [(u16, &'static str, u64); 14] = [
    (0x40, "Tab", 120),
    (0x42, "Q", 80),
    (0x43, "W", 80),
    (0x44, "E", 80),
    (0x45, "R", 80),
    (0x46, "T", 80),
    (0x47, "Y", 80),
    (0x48, "U", 80),
    (0x49, "I", 80),
    (0x4A, "O", 80),
    (0x4B, "P", 80),
    (0x4C, "[", 80),
    (0x4D, "]", 80),
    (0x4E, "\\", 120),
];

/// Row 3 of the main block: (code, caption, width); code 0 is a gap.
pub const ROW3: [(u16, &'static str, u64); 13] = [
    (0x55, "Caps", 140),
    (0x6D, "A", 80),
    (0x6E, "S", 80),
    (0x58, "D", 80),
    (0x59, "F", 80),
    (0x5A, "G", 80),
    (0x71, "H", 80),
    (0x72, "J", 80),
    (0x5B, "K", 80),
    (0x5C, "L", 80),
    (0x5D, ";", 80),
    (0x5F, "'", 80),
    (0x77, "Enter", 180),
];

/// Row 4 of the main block: (code, caption, width); code 0 is a gap.
pub const ROW4: [(u16, &'static str, u64); 12] = [
    (0x6A, "Shift", 180),
    (0x82, "Z", 80),
    (0x83, "X", 80),
    (0x6F, "C", 80),
    (0x70, "V", 80),
    (0x87, "B", 80),
    (0x88, "N", 80),
    (0x73, "M", 80),
    (0x74, ",", 80),
    (0x75, ".", 80),
    (0x76, "/", 80),
    (0x8D, "Shift", 220),
];

/// Row 5 of the main block: (code, caption, width); code 0 is a gap.
pub const ROW5: [(u16, &'static str, u64); 9] = [
    (0x7F, "Ctrl", 100),
    (0x80, "Fn", 80),
    (0x96, "Win", 80),
    (0x97, "Alt", 100),
    (0x98, "", 440),
    (0x9A, "Alt", 80),
    (0x9B, "Ctrl", 80),
    (0, "", 80),
    (0x9D, "↑", 80),
];

/// Row 6 of the main block: (code, caption, width); code 0 is a gap.
pub const ROW6: [(u16, &'static str, u64); 4] = [
    (0, "", 960),
    (0x9C, "←", 80),
    (0x9F, "↓", 80),
    (0xA1, "→", 80),
];

/// Top and height of each row of the main block.
pub const ROWS_Y: [(u64, u64); 7] = [(0, 64), (80, 80), (160, 80), (240, 80), (320, 80), (400, 80), (480, 80)];

/// The numeric block: (code, caption, x, y, w, h), x from the block's left edge.
pub const NUMPAD: [(u16, &'static str, u64, u64, u64, u64); 21] = [
    (0x11, "Home", 0, 0, 80, 64),
    (0x12, "End", 80, 0, 80, 64),
    (0x13, "PgUp", 160, 0, 80, 64),
    (0x14, "PgDn", 240, 0, 80, 64),
    (0x26, "Num", 0, 80, 80, 80),
    (0x27, "/", 80, 80, 80, 80),
    (0x28, "*", 160, 80, 80, 80),
    (0x29, "-", 240, 80, 80, 80),
    (0x4F, "7", 0, 160, 80, 80),
    (0x50, "8", 80, 160, 80, 80),
    (0x51, "9", 160, 160, 80, 80),
    (0x68, "+", 240, 160, 80, 160),
    (0x79, "4", 0, 240, 80, 80),
    (0x7B, "5", 80, 240, 80, 80),
    (0x7C, "6", 160, 240, 80, 80),
    (0x8E, "1", 0, 320, 80, 80),
    (0x90, "2", 80, 320, 80, 80),
    (0x92, "3", 160, 320, 80, 80),
    (0xA7, "Enter", 240, 320, 80, 160),
    (0xA3, "0", 0, 400, 160, 80),
    (0xA5, ".", 160, 400, 80, 80),
];

/// Measures per key.
pub const UNITS_PER_KEY: u64 = 80;
/// Left edge of the numeric block within the keyboard.
pub const NUMPAD_X: u64 = 1240;
pub const KEYBOARD_W: u64 = 1560;
pub const KEYBOARD_H: u64 = 560;
/// Thickness of a case strip, and its distance from the keyboard.
pub const STRIP: u64 = 28;
pub const STRIP_GAP: u64 = 28;
/// Left and top edge of the keyboard: a strip and its gap.
pub const ORIGIN: u64 = 56;
/// Top of the row of unknown zones, below the front strip.
pub const SPARE_Y: u64 = 704;
/// Side of an unknown zone's square.
pub const SPARE_SIZE: u64 = 72;

/// The keys of main row `i`.
pub open spec fn row_keys(i: int) -> Seq<(u16, &'static str, u64)> {
    if i == 0 {
        ROW0@
    } else if i == 1 {
        ROW1@
    } else if i == 2 {
        ROW2@
    } else if i == 3 {
        ROW3@
    } else if i == 4 {
        ROW4@
    } else if i == 5 {
        ROW5@
    } else {
        ROW6@
    }
}

/// Main row `i`: its top, its height and its keys.
pub fn main_row(i: usize) -> (r: (u64, u64, &'static [(u16, &'static str, u64)]))
    requires
        i < 7,
    ensures
        r.0 == ROWS_Y@[i as int].0,
        r.1 == ROWS_Y@[i as int].1,
        r.2@ == row_keys(i as int),
{
    let keys: &'static [(u16, &'static str, u64)] = match i {
        0 => &ROW0,
        1 => &ROW1,
        2 => &ROW2,
        3 => &ROW3,
        4 => &ROW4,
        5 => &ROW5,
        _ => &ROW6,
    };
    (ROWS_Y[i].0, ROWS_Y[i].1, keys)
}

/// Where a zone is drawn.
#[derive(Clone, Copy, Debug, PartialEq, Eq, Structural)]
pub enum Place {
    /// A rectangle.
    Fixed { x: u64, y: u64, w: u64, h: u64 },
    /// Part `i` of `n` equal parts of a strip of length `len` starting at
    /// `(x, y)`, horizontal or vertical, `STRIP` thick.
    Strip { horizontal: bool, x: u64, y: u64, len: u64, i: u64, n: u64 },
    /// Slot `k` of the row of unknown zones below the keyboard: a square of
    /// side `SPARE_SIZE` at `(ORIGIN + k keys, SPARE_Y)`.
    Spare { k: u64 },
    /// The logo on the lid, drawn apart from the keyboard.
    Lid,
}

#[derive(Clone, Copy, Debug, PartialEq, Eq)]
pub struct Zone {
    pub code: u16,
    pub label: &'static str,
    pub group: Group,
    pub place: Place,
}

/// The mathematical value of a [`Zone`].
pub struct ZoneModel {
    pub code: u16,
    pub label: Seq<char>,
    pub group: Group,
    pub place: Place,
}

impl View for Zone {
    type V = ZoneModel;

    open spec fn view(&self) -> ZoneModel {
        ZoneModel { code: self.code, label: self.label@, group: self.group, place: self.place }
    }
}

pub open spec fn zone_views(v: Seq<Zone>) -> Seq<ZoneModel> {
    v.map_values(|z: Zone| z@)
}

/// Sum of the widths of the first `k` keys.
pub open spec fn width_before(keys: Seq<(u16, &'static str, u64)>, k: int) -> int
    decreases k,
{
    if k <= 0 {
        0
    } else {
        width_before(keys, k - 1) + keys[k - 1].2
    }
}

/// The zones of the first `k` keys of a main row at `top`, `height` high:
/// the keys the controller has, placed one after another.
pub open spec fn row_zones(
    keys: Seq<(u16, &'static str, u64)>,
    present: Seq<u16>,
    top: u64,
    height: u64,
    k: int,
) -> Seq<ZoneModel>
    decreases k,
{
    if k <= 0 {
        seq![]
    } else {
        let prev = row_zones(keys, present, top, height, k - 1);
        let e = keys[k - 1];
        if e.0 != 0 && present.contains(e.0) {
            prev.push(
                ZoneModel {
                    code: e.0,
                    label: e.1@,
                    group: Group::Keys,
                    place: Place::Fixed {
                        x: (ORIGIN + width_before(keys, k - 1)) as u64,
                        y: (ORIGIN + top) as u64,
                        w: e.2,
                        h: height,
                    },
                },
            )
        } else {
            prev
        }
    }
}

/// The zones of the first `r` main rows.
pub open spec fn main_zones(present: Seq<u16>, r: int) -> Seq<ZoneModel>
    decreases r,
{
    if r <= 0 {
        seq![]
    } else {
        main_zones(present, r - 1) + row_zones(
            row_keys(r - 1),
            present,
            ROWS_Y@[r - 1].0,
            ROWS_Y@[r - 1].1,
            row_keys(r - 1).len() as int,
        )
    }
}

/// The zones of the first `k` keys of the numeric block.
pub open spec fn numpad_zones(present: Seq<u16>, k: int) -> Seq<ZoneModel>
    decreases k,
{
    if k <= 0 {
        seq![]
    } else {
        let prev = numpad_zones(present, k - 1);
        let e = NUMPAD@[k - 1];
        if present.contains(e.0) {
            prev.push(
                ZoneModel {
                    code: e.0,
                    label: e.1@,
                    group: Group::Numpad,
                    place: Place::Fixed {
                        x: (ORIGIN + NUMPAD_X + e.2) as u64,
                        y: (ORIGIN + e.3) as u64,
                        w: e.4,
                        h: e.5,
                    },
                },
            )
        } else {
            prev
        }
    }
}

fn has(present: &Vec<u16>, c: u16) -> (r: bool)
    ensures
        r == present@.contains(c),
{
    let mut i: usize = 0;
    while i < present.len()
        invariant
            i <= present@.len(),
            forall|t: int| 0 <= t < i ==> present@[t] != c,
        decreases present@.len() - i,
    {
        if present[i] == c {
            assert(present@[i as int] == c);
            return true;
        }
        i = i + 1;
    }
    false
}

/// Appends the zones of the main block.
fn place_main(present: &Vec<u16>, zones: &mut Vec<Zone>)
    ensures
        zone_views(final(zones)@) == zone_views(old(zones)@) + main_zones(present@, 7),
{
    let mut r: usize = 0;
    assert(zone_views(zones@) =~= zone_views(old(zones)@) + main_zones(present@, 0));
    while r < 7
        invariant
            r <= 7,
            zone_views(zones@) == zone_views(old(zones)@) + main_zones(present@, r as int),
        decreases 7 - r,
    {
        let (top, height, keys) = main_row(r);
        assert(top <= 480);
        let ghost base = zone_views(zones@);
        let mut x: u64 = 0;
        let mut k: usize = 0;
        while k < keys.len()
            invariant
                k <= keys@.len(),
                keys@ == row_keys(r as int),
                x == width_before(keys@, k as int),
                x <= k * 0xFFFF_FFFF_FFFF,
                top <= 480,
                forall|t: int| 0 <= t < keys@.len() ==> #[trigger] keys@[t].2 <= 0xFFFF_FFFF_FFFF,
                zone_views(zones@) == base + row_zones(keys@, present@, top, height, k as int),
            decreases keys@.len() - k,
        {
            let (code, label, w) = keys[k];
            if code != 0 && has(present, code) {
                let ghost before = zones@;
                zones.push(
                    Zone {
                        code,
                        label,
                        group: Group::Keys,
                        place: Place::Fixed { x: ORIGIN + x, y: ORIGIN + top, w, h: height },
                    },
                );
                assert(zone_views(zones@) =~= zone_views(before).push(zones@.last()@));
            }
            x = x + w;
            k = k + 1;
        }
        assert(zone_views(zones@) =~= zone_views(old(zones)@) + main_zones(present@, r + 1));
        r = r + 1;
    }
}


/// Appends the zones of the numeric block.
fn place_numpad(present: &Vec<u16>, zones: &mut Vec<Zone>)
    ensures
        zone_views(final(zones)@) == zone_views(old(zones)@) + numpad_zones(present@, 21),
{
    let mut k: usize = 0;
    assert(zone_views(zones@) =~= zone_views(old(zones)@) + numpad_zones(present@, 0));
    while k < 21
        invariant
            k <= 21,
            zone_views(zones@) == zone_views(old(zones)@) + numpad_zones(present@, k as int),
        decreases 21 - k,
    {
        let (code, label, x, y, w, h) = NUMPAD[k];
        assert(x <= 240 && y <= 400);
        if has(present, code) {
            let ghost before = zones@;
            zones.push(
                Zone {
                    code,
                    label,
                    group: Group::Numpad,
                    place: Place::Fixed { x: ORIGIN + NUMPAD_X + x, y: ORIGIN + y, w, h },
                },
            );
            assert(zone_views(zones@) =~= zone_views(before).push(zones@.last()@));
        }
        assert(zone_views(zones@) =~= zone_views(old(zones)@) + numpad_zones(present@, k + 1));
        k = k + 1;
    }
}

/// Lexicographic order of ordering keys.
pub open spec fn key_le(a: (int, int, int), b: (int, int, int)) -> bool {
    a.0 < b.0 || (a.0 == b.0 && (a.1 < b.1 || (a.1 == b.1 && a.2 <= b.2)))
}

pub open spec fn key_order() -> spec_fn((int, int, int), (int, int, int)) -> bool {
    |a: (int, int, int), b: (int, int, int)| key_le(a, b)
}

proof fn lemma_key_order_total()
    ensures
        total_ordering(key_order()),
{
}

/// The key by which the case zones of a group are ordered: the zone's first
/// cell `(x, y)` in the matrix and its code, by rows `(y, x)` first; a zone
/// outside the matrix counts as at `(code, 0)`.
pub open spec fn order_key(rows: Seq<Seq<u16>>, c: u16, by_row: bool) -> (int, int, int) {
    let (x, y) = match first_position(rows, c, 0) {
        Some(p) => p,
        None => (c as int, 0),
    };
    if by_row {
        (y, x, c as int)
    } else {
        (x, y, c as int)
    }
}

/// The zones among `present` of case part `g`, in their order.
pub open spec fn case_codes(present: Seq<u16>, g: Group) -> Seq<u16> {
    present.filter(|c: u16| case_group_spec(c) == Some(g))
}

/// The zones of case part `g` ordered by their keys.
pub open spec fn ordered(rows: Seq<Seq<u16>>, present: Seq<u16>, g: Group, by_row: bool) -> Seq<u16> {
    case_codes(present, g).map_values(|c: u16| order_key(rows, c, by_row)).sort_by(
        key_order(),
    ).map_values(|t: (int, int, int)| t.2 as u16)
}

/// Two sequences sorted by the same total order, with the same elements,
/// are the same.
proof fn lemma_sorted_unique<T>(a: Seq<T>, b: Seq<T>, leq: spec_fn(T, T) -> bool)
    requires
        total_ordering(leq),
        sorted_by(a, leq),
        sorted_by(b, leq),
        a.to_multiset() == b.to_multiset(),
    ensures
        a == b,
    decreases a.len(),
{
    a.to_multiset_ensures();
    b.to_multiset_ensures();
    if a.len() == 0 {
        assert(b.len() == 0);
        assert(a =~= b);
    } else {
        assert(b.len() > 0);
        assert(a.contains(a[0]));
        assert(b.to_multiset().count(a[0]) > 0);
        assert(b.contains(a[0]));
        let j = choose|j: int| 0 <= j < b.len() && b[j] == a[0];
        if j > 0 {
            assert(leq(b[0], b[j]));
        }
        assert(leq(b[0], a[0]));
        assert(b.contains(b[0]));
        assert(a.to_multiset().count(b[0]) > 0);
        assert(a.contains(b[0]));
        let i = choose|i: int| 0 <= i < a.len() && a[i] == b[0];
        if i > 0 {
            assert(leq(a[0], a[i]));
        }
        assert(leq(a[0], b[0]));
        assert(a[0] == b[0]);
        assert(a.remove(0) =~= a.drop_first());
        assert(b.remove(0) =~= b.drop_first());
        assert(a.drop_first().to_multiset() =~= b.drop_first().to_multiset());
        assert(sorted_by(a.drop_first(), leq)) by {
            assert forall|p: int, q: int| 0 <= p < q < a.drop_first().len() implies #[trigger] leq(
                a.drop_first()[p],
                a.drop_first()[q],
            ) by {
                assert(leq(a[p + 1], a[q + 1]));
            }
        }
        assert(sorted_by(b.drop_first(), leq)) by {
            assert forall|p: int, q: int| 0 <= p < q < b.drop_first().len() implies #[trigger] leq(
                b.drop_first()[p],
                b.drop_first()[q],
            ) by {
                assert(leq(b[p + 1], b[q + 1]));
            }
        }
        lemma_sorted_unique(a.drop_first(), b.drop_first(), leq);
        assert(a =~= b) by {
            assert forall|t: int| 0 <= t < a.len() implies a[t] == b[t] by {
                if t > 0 {
                    assert(a[t] == a.drop_first()[t - 1]);
                    assert(b[t] == b.drop_first()[t - 1]);
                }
            }
        }
    }
}

pub open spec fn key_of(t: (usize, usize, u16)) -> (int, int, int) {
    (t.0 as int, t.1 as int, t.2 as int)
}

pub open spec fn keys_of(v: Seq<(usize, usize, u16)>) -> Seq<(int, int, int)> {
    v.map_values(|t: (usize, usize, u16)| key_of(t))
}

fn key_le_exec(a: (usize, usize, u16), b: (usize, usize, u16)) -> (r: bool)
    ensures
        r == key_le(key_of(a), key_of(b)),
{
    a.0 < b.0 || (a.0 == b.0 && (a.1 < b.1 || (a.1 == b.1 && a.2 <= b.2)))
}

/// The entries ordered by their keys.
fn sort_keys(v: &Vec<(usize, usize, u16)>) -> (r: Vec<(usize, usize, u16)>)
    ensures
        keys_of(r@) == keys_of(v@).sort_by(key_order()),
{
    let mut out: Vec<(usize, usize, u16)> = Vec::new();
    let mut i: usize = 0;
    assert(keys_of(out@) =~= keys_of(v@.subrange(0, 0)));
    while i < v.len()
        invariant
            i <= v@.len(),
            keys_of(out@).to_multiset() == keys_of(v@.subrange(0, i as int)).to_multiset(),
            sorted_by(keys_of(out@), key_order()),
        decreases v@.len() - i,
    {
        let x = v[i];
        let mut p: usize = 0;
        while p < out.len() && key_le_exec(out[p], x)
            invariant
                p <= out@.len(),
                forall|j: int| 0 <= j < p ==> key_le(#[trigger] key_of(out@[j]), key_of(x)),
            decreases out@.len() - p,
        {
            p = p + 1;
        }
        let ghost before = keys_of(out@);
        out.insert(p, x);
        proof {
            let w = keys_of(out@);
            let kx = key_of(x);
            assert(w =~= before.insert(p as int, kx));
            before.insert_ensures(p as int, kx);
            assert(w.remove(p as int) =~= before);
            w.to_multiset_ensures();
            assert(w.to_multiset() =~= before.to_multiset().insert(kx));
            keys_of(v@.subrange(0, i as int)).to_multiset_ensures();
            assert(keys_of(v@.subrange(0, i + 1)) =~= keys_of(v@.subrange(0, i as int)).push(kx));
            assert forall|a: int, b: int| 0 <= a < b < w.len() implies #[trigger] key_order()(
                w[a],
                w[b],
            ) by {
                if b < p {
                    assert(key_order()(before[a], before[b]));
                } else if b == p {
                    assert(key_le(before[a], kx));
                } else if a > p {
                    assert(key_order()(before[a - 1], before[b - 1]));
                } else if a == p {
                    assert(!key_le(before[p as int], kx));
                    if b - 1 > p {
                        assert(key_order()(before[p as int], before[b - 1]));
                    }
                } else {
                    assert(key_order()(before[a], before[b - 1]));
                }
            }
        }
        i = i + 1;
    }
    assert(v@.subrange(0, i as int) =~= v@);
    proof {
        lemma_key_order_total();
        keys_of(v@).lemma_sort_by_ensures(key_order());
        lemma_sorted_unique(keys_of(out@), keys_of(v@).sort_by(key_order()), key_order());
    }
    out
}


proof fn lemma_index_in(row: Seq<u16>, code: u16, s: int, x: int)
    requires
        0 <= s <= x < row.len(),
        row[x] == code,
        forall|t: int| s <= t < x ==> row[t] != code,
    ensures
        index_in(row, code, s) == x,
    decreases x - s,
{
    if s < x {
        lemma_index_in(row, code, s + 1, x);
    }
}

proof fn lemma_index_in_absent(row: Seq<u16>, code: u16, s: int)
    requires
        0 <= s <= row.len(),
        !row.contains(code),
    ensures
        index_in(row, code, s) == row.len(),
    decreases row.len() - s,
{
    if s < row.len() {
        assert(row[s] != code);
        lemma_index_in_absent(row, code, s + 1);
    }
}

/// The first cell of a zone, as `KeyMatrix::position` finds it.
proof fn lemma_first_position(rows: Seq<Seq<u16>>, code: u16, s: int, r: Option<(int, int)>)
    requires
        0 <= s <= rows.len(),
        forall|t: int| 0 <= t < s ==> !(#[trigger] rows[t]).contains(code),
        r matches Some((x, y)) ==> {
            &&& s <= y < rows.len()
            &&& 0 <= x < rows[y].len()
            &&& rows[y][x] == code
            &&& forall|t: int| 0 <= t < y ==> !(#[trigger] rows[t]).contains(code)
            &&& forall|t: int| 0 <= t < x ==> rows[y][t] != code
        },
        r is None ==> forall|t: int| 0 <= t < rows.len() ==> !(#[trigger] rows[t]).contains(code),
    ensures
        first_position(rows, code, s) == r,
    decreases rows.len() - s,
{
    if s < rows.len() {
        match r {
            Some((x, y)) => {
                if y == s {
                    lemma_index_in(rows[s], code, 0, x);
                } else {
                    lemma_index_in_absent(rows[s], code, 0);
                    lemma_first_position(rows, code, s + 1, r);
                }
            },
            None => {
                lemma_index_in_absent(rows[s], code, 0);
                lemma_first_position(rows, code, s + 1, r);
            },
        }
    }
}

/// Where `KeyMatrix::position` finds zone `c`, as integers.
fn position_of(m: &KeyMatrix, c: u16) -> (r: Option<(usize, usize)>)
    ensures
        match (r, first_position(rows_view(m.rows@), c, 0)) {
            (Some((x, y)), Some((a, b))) => x as int == a && y as int == b,
            (None, None) => true,
            _ => false,
        },
{
    let r = m.position(c);
    proof {
        let rows = rows_view(m.rows@);
        let g: Option<(int, int)> = match r {
            Some((x, y)) => Some((x as int, y as int)),
            None => None,
        };
        match r {
            Some((x, y)) => {
                assert forall|t: int| 0 <= t < y implies !(#[trigger] rows[t]).contains(c) by {
                    assert(rows[t] == m.rows@[t]@);
                }
                assert(rows[y as int] == m.rows@[y as int]@);
            },
            None => {
                assert forall|t: int| 0 <= t < rows.len() implies !(#[trigger] rows[t]).contains(c) by {
                    assert(rows[t] == m.rows@[t]@);
                }
            },
        }
        lemma_first_position(rows, c, 0, g);
    }
    r
}

/// The zones of case part `g` among `present`, ordered by their place in
/// the matrix.
fn order(m: &KeyMatrix, present: &Vec<u16>, g: Group, by_row: bool) -> (r: Vec<u16>)
    ensures
        r@ == ordered(rows_view(m.rows@), present@, g, by_row),
{
    let ghost rows = rows_view(m.rows@);
    let mut v: Vec<(usize, usize, u16)> = Vec::new();
    let mut i: usize = 0;
    while i < present.len()
        invariant
            i <= present@.len(),
            rows == rows_view(m.rows@),
            keys_of(v@) == case_codes(present@.take(i as int), g).map_values(
                |c: u16| order_key(rows, c, by_row),
            ),
        decreases present@.len() - i,
    {
        proof {
            reveal_with_fuel(Seq::filter, 1);
            assert(present@.take(i + 1).drop_last() =~= present@.take(i as int));
        }
        let c = present[i];
        if case_group(c) == Some(g) {
            let (x, y) = match position_of(m, c) {
                Some(p) => p,
                None => (c as usize, 0),
            };
            let ghost before = v@;
            v.push(
                if by_row {
                    (y, x, c)
                } else {
                    (x, y, c)
                },
            );
            assert(keys_of(v@) =~= keys_of(before).push(order_key(rows, c, by_row)));
        }
        assert(keys_of(v@) =~= case_codes(present@.take(i + 1), g).map_values(
            |c: u16| order_key(rows, c, by_row),
        ));
        i = i + 1;
    }
    assert(present@.take(i as int) =~= present@);
    let sorted = sort_keys(&v);
    let mut r: Vec<u16> = Vec::new();
    let mut k: usize = 0;
    while k < sorted.len()
        invariant
            k <= sorted@.len(),
            r@ == keys_of(sorted@).take(k as int).map_values(|t: (int, int, int)| t.2 as u16),
        decreases sorted@.len() - k,
    {
        r.push(sorted[k].2);
        assert(r@ =~= keys_of(sorted@).take(k + 1).map_values(|t: (int, int, int)| t.2 as u16));
        k = k + 1;
    }
    assert(keys_of(sorted@).take(k as int) =~= keys_of(sorted@));
    r
}

/// The zones `codes` spread evenly over a strip.
pub open spec fn strip(codes: Seq<u16>, g: Group, horizontal: bool, x: u64, y: u64, len: u64) -> Seq<
    ZoneModel,
> {
    Seq::new(
        codes.len(),
        |i: int|
            ZoneModel {
                code: codes[i],
                label: ""@,
                group: g,
                place: Place::Strip { horizontal, x, y, len, i: i as u64, n: codes.len() as u64 },
            },
    )
}

fn spread(
    zones: &mut Vec<Zone>,
    codes: &Vec<u16>,
    g: Group,
    horizontal: bool,
    x: u64,
    y: u64,
    len: u64,
)
    ensures
        zone_views(final(zones)@) == zone_views(old(zones)@) + strip(codes@, g, horizontal, x, y, len),
{
    let n = codes.len() as u64;
    let mut i: usize = 0;
    assert(zone_views(zones@) =~= zone_views(old(zones)@) + strip(
        codes@.take(0),
        g,
        horizontal,
        x,
        y,
        len,
    ).take(0));
    while i < codes.len()
        invariant
            i <= codes@.len(),
            n == codes@.len() as u64,
            zone_views(zones@) == zone_views(old(zones)@) + strip(codes@, g, horizontal, x, y, len).take(
                i as int,
            ),
        decreases codes@.len() - i,
    {
        let ghost before = zones@;
        zones.push(
            Zone {
                code: codes[i],
                label: "",
                group: g,
                place: Place::Strip { horizontal, x, y, len, i: i as u64, n },
            },
        );
        assert(zone_views(zones@) =~= zone_views(before).push(zones@.last()@));
        assert(strip(codes@, g, horizontal, x, y, len).take(i + 1) =~= strip(
            codes@,
            g,
            horizontal,
            x,
            y,
            len,
        ).take(i as int).push(zones@.last()@));
        i = i + 1;
    }
    assert(strip(codes@, g, horizontal, x, y, len).take(i as int) =~= strip(
        codes@,
        g,
        horizontal,
        x,
        y,
        len,
    ));
}

/// A side zone lies in the left half: by its first cell in the matrix, or,
/// outside the matrix, by its code.
pub open spec fn is_left(m: KeyMatrix, c: u16) -> bool {
    match first_position(rows_view(m.rows@), c, 0) {
        Some((x, _)) => x < m.width / 2,
        None => c < 0x1F9,
    }
}

fn left_of(m: &KeyMatrix, c: u16) -> (r: bool)
    ensures
        r == is_left(*m, c),
{
    match position_of(m, c) {
        Some((x, _)) => x < m.width / 2,
        None => c < 0x1F9,
    }
}

/// The side zones split into those on the left and those on the right, each
/// in their order.
fn split_sides(m: &KeyMatrix, sides: &Vec<u16>) -> (r: (Vec<u16>, Vec<u16>))
    ensures
        r.0@ == sides@.filter(|c: u16| is_left(*m, c)),
        r.1@ == sides@.filter(|c: u16| !is_left(*m, c)),
{
    let mut left: Vec<u16> = Vec::new();
    let mut right: Vec<u16> = Vec::new();
    let mut i: usize = 0;
    while i < sides.len()
        invariant
            i <= sides@.len(),
            left@ == sides@.take(i as int).filter(|c: u16| is_left(*m, c)),
            right@ == sides@.take(i as int).filter(|c: u16| !is_left(*m, c)),
        decreases sides@.len() - i,
    {
        proof {
            reveal_with_fuel(Seq::filter, 1);
            assert(sides@.take(i + 1).drop_last() =~= sides@.take(i as int));
        }
        let c = sides[i];
        if left_of(m, c) {
            left.push(c);
        } else {
            right.push(c);
        }
        i = i + 1;
    }
    assert(sides@.take(i as int) =~= sides@);
    (left, right)
}

pub open spec fn codes_of(zs: Seq<ZoneModel>) -> Seq<u16> {
    zs.map_values(|z: ZoneModel| z.code)
}

/// The unknown zones `cs` in the row below the keyboard.
pub open spec fn spares(cs: Seq<u16>) -> Seq<ZoneModel> {
    Seq::new(
        cs.len(),
        |k: int|
            ZoneModel { code: cs[k], label: "?"@, group: Group::Keys, place: Place::Spare { k: k as u64 } },
    )
}

/// The logo zone, where the controller has one.
pub open spec fn lid(present: Seq<u16>) -> Seq<ZoneModel> {
    if present.contains(LOGO) {
        seq![ZoneModel { code: LOGO, label: "LEGION"@, group: Group::Logo, place: Place::Lid }]
    } else {
        seq![]
    }
}

/// The zones placed before the unknown ones: the main block, the numeric
/// block, the rear, left, right and front strips, and the logo.
pub open spec fn placed(m: KeyMatrix) -> Seq<ZoneModel> {
    let p = distinct_codes(m.cells());
    let rows = rows_view(m.rows@);
    let sides = ordered(rows, p, Group::Side, true);
    main_zones(p, 7) + numpad_zones(p, 21) + strip(
        ordered(rows, p, Group::Rear, false),
        Group::Rear,
        true,
        ORIGIN,
        0,
        KEYBOARD_W,
    ) + strip(sides.filter(|c: u16| is_left(m, c)), Group::Side, false, 0, ORIGIN, KEYBOARD_H)
        + strip(
        sides.filter(|c: u16| !is_left(m, c)),
        Group::Side,
        false,
        (ORIGIN + KEYBOARD_W + STRIP_GAP) as u64,
        ORIGIN,
        KEYBOARD_H,
    ) + strip(
        ordered(rows, p, Group::Front, false),
        Group::Front,
        true,
        ORIGIN,
        (ORIGIN + KEYBOARD_H + STRIP_GAP) as u64,
        KEYBOARD_W,
    ) + lid(p)
}

/// The layout of a controller's zones: only the zones it has; zones of codes
/// the layout does not know go, in their order, to a row below the keyboard.
pub open spec fn build_spec(m: KeyMatrix) -> Seq<ZoneModel> {
    let p = distinct_codes(m.cells());
    placed(m) + spares(p.filter(|c: u16| !codes_of(placed(m)).contains(c) && c != LOGO))
}

/// The layout for one controller.
pub fn build(matrix: &KeyMatrix) -> (zones: Vec<Zone>)
    ensures
        zone_views(zones@) == build_spec(*matrix),
{
    let present = matrix.codes();
    let ghost p = present@;
    let mut zones: Vec<Zone> = Vec::new();
    assert(zone_views(zones@) =~= Seq::<ZoneModel>::empty());
    place_main(&present, &mut zones);
    place_numpad(&present, &mut zones);
    let rear = order(matrix, &present, Group::Rear, false);
    spread(&mut zones, &rear, Group::Rear, true, ORIGIN, 0, KEYBOARD_W);
    let sides = order(matrix, &present, Group::Side, true);
    let (left, right) = split_sides(matrix, &sides);
    spread(&mut zones, &left, Group::Side, false, 0, ORIGIN, KEYBOARD_H);
    spread(&mut zones, &right, Group::Side, false, ORIGIN + KEYBOARD_W + STRIP_GAP, ORIGIN, KEYBOARD_H);
    let front = order(matrix, &present, Group::Front, false);
    spread(&mut zones, &front, Group::Front, true, ORIGIN, ORIGIN + KEYBOARD_H + STRIP_GAP, KEYBOARD_W);
    if has(&present, LOGO) {
        let ghost before = zones@;
        zones.push(Zone { code: LOGO, label: "LEGION", group: Group::Logo, place: Place::Lid });
        assert(zone_views(zones@) =~= zone_views(before).push(zones@.last()@));
    }
    assert(zone_views(zones@) =~= placed(*matrix));
    let ghost done = zone_views(zones@);
    let mut known: Vec<u16> = Vec::new();
    let mut j: usize = 0;
    while j < zones.len()
        invariant
            j <= zones@.len(),
            known@ == codes_of(zone_views(zones@)).take(j as int),
        decreases zones@.len() - j,
    {
        known.push(zones[j].code);
        assert(known@ =~= codes_of(zone_views(zones@)).take(j + 1));
        j = j + 1;
    }
    assert(known@ =~= codes_of(done));
    let ghost wanted = p.filter(|c: u16| !codes_of(done).contains(c) && c != LOGO);
    let mut k: u64 = 0;
    let mut i: usize = 0;
    while i < present.len()
        invariant
            i <= present@.len(),
            p == present@,
            known@ == codes_of(done),
            k as int == p.take(i as int).filter(|c: u16| !codes_of(done).contains(c) && c != LOGO).len(),
            k <= i,
            zone_views(zones@) == done + spares(
                p.take(i as int).filter(|c: u16| !codes_of(done).contains(c) && c != LOGO),
            ),
        decreases present@.len() - i,
    {
        proof {
            reveal_with_fuel(Seq::filter, 1);
            assert(p.take(i + 1).drop_last() =~= p.take(i as int));
        }
        let code = present[i];
        let ghost before = zones@;
        let ghost f0 = p.take(i as int).filter(|c: u16| !codes_of(done).contains(c) && c != LOGO);
        if !(has(&known, code) || code == LOGO) {
            zones.push(Zone { code, label: "?", group: Group::Keys, place: Place::Spare { k } });
            assert(spares(f0.push(code)) =~= spares(f0).push(zones@.last()@));
            assert(zone_views(zones@) =~= zone_views(before).push(zones@.last()@));
            assert(zone_views(zones@) =~= done + spares(f0.push(code)));
            k = k + 1;
        }
        i = i + 1;
    }
    assert(p.take(i as int) =~= p);
    zones
}


proof fn lemma_width_fold(keys: Seq<(u16, &'static str, u64)>, k: int)
    requires
        0 <= k <= keys.len(),
    ensures
        width_before(keys, k) == keys.take(k).fold_left(
            0int,
            |acc: int, e: (u16, &'static str, u64)| acc + e.2,
        ),
    decreases k,
{
    if k > 0 {
        lemma_width_fold(keys, k - 1);
        assert(keys.take(k).drop_last() =~= keys.take(k - 1));
    }
}

proof fn lemma_row_zone_in(
    keys: Seq<(u16, &'static str, u64)>,
    present: Seq<u16>,
    top: u64,
    height: u64,
    n: int,
    k: int,
)
    requires
        0 <= k < n <= keys.len(),
        keys[k].0 != 0,
        present.contains(keys[k].0),
    ensures
        row_zones(keys, present, top, height, n).contains(
            ZoneModel {
                code: keys[k].0,
                label: keys[k].1@,
                group: Group::Keys,
                place: Place::Fixed {
                    x: (ORIGIN + width_before(keys, k)) as u64,
                    y: (ORIGIN + top) as u64,
                    w: keys[k].2,
                    h: height,
                },
            },
        ),
    decreases n,
{
    let z = ZoneModel {
        code: keys[k].0,
        label: keys[k].1@,
        group: Group::Keys,
        place: Place::Fixed {
            x: (ORIGIN + width_before(keys, k)) as u64,
            y: (ORIGIN + top) as u64,
            w: keys[k].2,
            h: height,
        },
    };
    let prev = row_zones(keys, present, top, height, n - 1);
    let all = row_zones(keys, present, top, height, n);
    if k == n - 1 {
        assert(all == prev.push(z));
        assert(all[all.len() - 1] == z);
    } else {
        lemma_row_zone_in(keys, present, top, height, n - 1, k);
        let t = choose|t: int| 0 <= t < prev.len() && prev[t] == z;
        assert(all[t] == z);
    }
}

proof fn lemma_main_zone_in(present: Seq<u16>, r: int, j: int, z: ZoneModel)
    requires
        0 <= r < j <= 7,
        row_zones(row_keys(r), present, ROWS_Y@[r].0, ROWS_Y@[r].1, row_keys(r).len() as int).contains(
            z,
        ),
    ensures
        main_zones(present, j).contains(z),
    decreases j,
{
    let prev = main_zones(present, j - 1);
    let rz = row_zones(
        row_keys(j - 1),
        present,
        ROWS_Y@[j - 1].0,
        ROWS_Y@[j - 1].1,
        row_keys(j - 1).len() as int,
    );
    assert(main_zones(present, j) == prev + rz);
    if r == j - 1 {
        let t = choose|t: int| 0 <= t < rz.len() && rz[t] == z;
        assert((prev + rz)[prev.len() + t] == z);
    } else {
        lemma_main_zone_in(present, r, j - 1, z);
        let t = choose|t: int| 0 <= t < prev.len() && prev[t] == z;
        assert((prev + rz)[t] == z);
    }
}

/// A key of a main row that the controller has is drawn with its row's top
/// and height and its own width, at `x = ORIGIN` plus the widths of every
/// entry before it in its row, gap entries (code 0) included.
pub proof fn law_main_key_place(m: KeyMatrix, r: int, k: int)
    requires
        0 <= r < 7,
        0 <= k < row_keys(r).len(),
        row_keys(r)[k].0 != 0,
        distinct_codes(m.cells()).contains(row_keys(r)[k].0),
    ensures
        build_spec(m).contains(
            (ZoneModel {
                code: row_keys(r)[k].0,
                label: row_keys(r)[k].1@,
                group: Group::Keys,
                place: Place::Fixed {
                    x: (ORIGIN + row_keys(r).take(k).fold_left(
                        0int,
                        |acc: int, e: (u16, &'static str, u64)| acc + e.2,
                    )) as u64,
                    y: (ORIGIN + ROWS_Y@[r].0) as u64,
                    w: row_keys(r)[k].2,
                    h: ROWS_Y@[r].1,
                },
            }),
        ),
{
    let p = distinct_codes(m.cells());
    let keys = row_keys(r);
    lemma_width_fold(keys, k);
    let z = ZoneModel {
        code: keys[k].0,
        label: keys[k].1@,
        group: Group::Keys,
        place: Place::Fixed {
            x: (ORIGIN + width_before(keys, k)) as u64,
            y: (ORIGIN + ROWS_Y@[r].0) as u64,
            w: keys[k].2,
            h: ROWS_Y@[r].1,
        },
    };
    lemma_row_zone_in(keys, p, ROWS_Y@[r].0, ROWS_Y@[r].1, keys.len() as int, k);
    lemma_main_zone_in(p, r, 7, z);
    let mz = main_zones(p, 7);
    let t = choose|t: int| 0 <= t < mz.len() && mz[t] == z;
    let pl = placed(m);
    assert(pl[t] == z);
    let all = build_spec(m);
    assert(all[t] == z);
}

/// Every zone of the controller has a place in the layout.
pub proof fn law_every_zone_placed(m: KeyMatrix, c: u16)
    requires
        distinct_codes(m.cells()).contains(c),
    ensures
        codes_of(build_spec(m)).contains(c),
{
    let p = distinct_codes(m.cells());
    let placed = placed(m);
    let f = |x: u16| !codes_of(placed).contains(x) && x != LOGO;
    let all = build_spec(m);
    assert(all == placed + spares(p.filter(f)));
    if codes_of(placed).contains(c) {
        let k = choose|k: int| 0 <= k < codes_of(placed).len() && codes_of(placed)[k] == c;
        assert(codes_of(all)[k] == c);
    } else {
        if c == LOGO {
            assert(lid(p) == seq![ZoneModel { code: LOGO, label: "LEGION"@, group: Group::Logo, place: Place::Lid }]);
            assert(placed.last().code == LOGO);
            assert(codes_of(placed)[placed.len() - 1] == LOGO);
        }
        let i = choose|i: int| 0 <= i < p.len() && p[i] == c;
        p.lemma_filter_contains(f, i);
        let cs = p.filter(f);
        let k = choose|k: int| 0 <= k < cs.len() && cs[k] == c;
        assert(spares(cs)[k].code == c);
        assert(codes_of(all)[placed.len() + k] == c);
    }
}

} // verus!
