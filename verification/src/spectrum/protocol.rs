//! Protocol of the Lenovo Legion Spectrum RGB controller (ITE 8258,
//! `048d:c197` and the `048d:c9xx` family).
//!
//! Every exchange is one feature report `0x07`, 960 bytes long:
//!
//! ```text
//! request:  [07] [op] [C0] [03] [parameters…]
//! response: [07] [op] [len] [00] [data…]
//! ```
//!
//! A read without a preceding request returns the current colour of every
//! zone (see [`parse_state`]).

use vstd::prelude::*;

use crate::text::hex2_spec;

pub mod op;
pub mod layers;
pub mod codec;

pub use layers::{compress, survivors};
pub use codec::{
    decode_effects, encode_effects, parse_key_count, parse_key_page, parse_state, EncodeError,
};

verus! {

pub const REPORT_ID: u8 = 0x07;

pub const REPORT_LEN: usize = 960;

/// Second byte of a lighting frame (a read without a request).
pub const STATE_REPORT: u8 = 0x03;

/// Highest brightness (0 is off).
pub const MAX_BRIGHTNESS: u8 = 9;

/// Hardware profiles, switched with Fn+Space, are numbered 1 to 6.
pub const FIRST_PROFILE: u8 = 1;

pub const LAST_PROFILE: u8 = 6;

/// Zone code that stands for "all zones" in effects that always cover the
/// whole device.
pub const ALL_ZONES: u16 = 0x65;

pub type Packet = [u8; REPORT_LEN];

/// `n` zero bytes.
pub open spec fn zeros(n: int) -> Seq<u8> {
    Seq::new(n as nat, |i: int| 0u8)
}

/// Request `op` with `params`, padded with zeros to a full report.
pub open spec fn request_spec(op: u8, params: Seq<u8>) -> Seq<u8> {
    seq![REPORT_ID, op, 0xC0u8, 0x03u8] + params + zeros(REPORT_LEN - 4 - params.len())
}

/// Request `op` with parameters.
pub fn request(op: u8, params: &[u8]) -> (b: Packet)
    requires
        params@.len() <= REPORT_LEN - 4,
    ensures
        b@ == request_spec(op, params@),
{
    let mut b = [0u8; 960];
    b[0] = REPORT_ID;
    b[1] = op;
    b[2] = 0xC0;
    b[3] = 0x03;
    let mut i: usize = 0;
    while i < params.len()
        invariant
            i <= params@.len() <= REPORT_LEN - 4,
            b@.len() == REPORT_LEN,
            b@[0] == REPORT_ID,
            b@[1] == op,
            b@[2] == 0xC0,
            b@[3] == 0x03,
            forall|j: int| 0 <= j < i ==> b@[4 + j] == params@[j],
            forall|j: int| 4 + i <= j < REPORT_LEN ==> b@[j] == 0,
        decreases params@.len() - i,
    {
        b[4 + i] = params[i];
        i = i + 1;
    }
    assert(b@ =~= request_spec(op, params@));
    b
}

/// A colour.
#[derive(Clone, Copy, Debug, PartialEq, Eq, Default, Hash, Structural)]
pub struct Rgb {
    pub r: u8,
    pub g: u8,
    pub b: u8,
}

impl Rgb {
    pub fn new(r: u8, g: u8, b: u8) -> (c: Self)
        ensures
            c == (Rgb { r, g, b }),
    {
        Rgb { r, g, b }
    }

    /// `#RRGGBB` in upper-case hexadecimal.
    pub open spec fn hex_text(self) -> Seq<char> {
        seq!['#'] + hex2_spec(self.r) + hex2_spec(self.g) + hex2_spec(self.b)
    }

    /// The colour as `#RRGGBB`.
    pub fn to_hex(self) -> (s: String)
        ensures
            s@ == self.hex_text(),
    {
        proof {
            reveal_strlit("#");
        }
        let mut s = String::from_str("#");
        crate::text::push_hex2(&mut s, self.r);
        crate::text::push_hex2(&mut s, self.g);
        crate::text::push_hex2(&mut s, self.b);
        s
    }
}

/// Effect kinds known to the firmware.
#[derive(Clone, Copy, Debug, PartialEq, Eq, Hash, Structural)]
pub enum EffectType {
    RainbowScrew,
    RainbowWave,
    ColorChange,
    ColorPulse,
    ColorWave,
    Smooth,
    Rain,
    Ripple,
    AudioBounce,
    AudioRipple,
    Always,
    Type,
    AuroraSync,
}

/// Which colours an effect takes.
#[derive(Clone, Copy, Debug, PartialEq, Eq, Structural)]
pub enum ColorKind {
    /// No colour.
    Nothing,
    /// Exactly one colour.
    Single,
    /// A list of colours; an empty list means random colours.
    Multi,
}

impl EffectType {
    /// Effects offered by the editor (screen sync needs screen capture and is
    /// not offered).
    pub const EDITABLE: [EffectType; 12] = [
        EffectType::Always,
        EffectType::RainbowWave,
        EffectType::RainbowScrew,
        EffectType::ColorWave,
        EffectType::ColorChange,
        EffectType::ColorPulse,
        EffectType::Smooth,
        EffectType::Rain,
        EffectType::Ripple,
        EffectType::Type,
        EffectType::AudioBounce,
        EffectType::AudioRipple,
    ];

    /// The firmware's code of the kind.
    #[verifier::allow_in_spec]
    pub fn code(self) -> u8
        returns
            match self {
                EffectType::RainbowScrew => 1u8,
                EffectType::RainbowWave => 2u8,
                EffectType::ColorChange => 3u8,
                EffectType::ColorPulse => 4u8,
                EffectType::ColorWave => 5u8,
                EffectType::Smooth => 6u8,
                EffectType::Rain => 7u8,
                EffectType::Ripple => 8u8,
                EffectType::AudioBounce => 9u8,
                EffectType::AudioRipple => 10u8,
                EffectType::Always => 11u8,
                EffectType::Type => 12u8,
                EffectType::AuroraSync => 13u8,
            },
    {
        match self {
            EffectType::RainbowScrew => 1,
            EffectType::RainbowWave => 2,
            EffectType::ColorChange => 3,
            EffectType::ColorPulse => 4,
            EffectType::ColorWave => 5,
            EffectType::Smooth => 6,
            EffectType::Rain => 7,
            EffectType::Ripple => 8,
            EffectType::AudioBounce => 9,
            EffectType::AudioRipple => 10,
            EffectType::Always => 11,
            EffectType::Type => 12,
            EffectType::AuroraSync => 13,
        }
    }

    /// The kind with firmware code `v`, if any.
    #[verifier::allow_in_spec]
    pub fn from_u8(v: u8) -> (r: Option<Self>)
        ensures
            r is Some <==> 1 <= v <= 13,
            r matches Some(k) ==> k.code() == v,
        returns
            match v {
                1u8 => Some(EffectType::RainbowScrew),
                2u8 => Some(EffectType::RainbowWave),
                3u8 => Some(EffectType::ColorChange),
                4u8 => Some(EffectType::ColorPulse),
                5u8 => Some(EffectType::ColorWave),
                6u8 => Some(EffectType::Smooth),
                7u8 => Some(EffectType::Rain),
                8u8 => Some(EffectType::Ripple),
                9u8 => Some(EffectType::AudioBounce),
                10u8 => Some(EffectType::AudioRipple),
                11u8 => Some(EffectType::Always),
                12u8 => Some(EffectType::Type),
                13u8 => Some(EffectType::AuroraSync),
                _ => None,
            },
    {
        match v {
            1 => Some(EffectType::RainbowScrew),
            2 => Some(EffectType::RainbowWave),
            3 => Some(EffectType::ColorChange),
            4 => Some(EffectType::ColorPulse),
            5 => Some(EffectType::ColorWave),
            6 => Some(EffectType::Smooth),
            7 => Some(EffectType::Rain),
            8 => Some(EffectType::Ripple),
            9 => Some(EffectType::AudioBounce),
            10 => Some(EffectType::AudioRipple),
            11 => Some(EffectType::Always),
            12 => Some(EffectType::Type),
            13 => Some(EffectType::AuroraSync),
            _ => None,
        }
    }

    pub open spec fn label_text(self) -> Seq<char> {
        match self {
            EffectType::Always => "Статичный цвет"@,
            EffectType::RainbowWave => "Радужная волна"@,
            EffectType::RainbowScrew => "Радужная спираль"@,
            EffectType::ColorWave => "Цветная волна"@,
            EffectType::ColorChange => "Смена цветов"@,
            EffectType::ColorPulse => "Пульсация"@,
            EffectType::Smooth => "Плавный переход"@,
            EffectType::Rain => "Дождь"@,
            EffectType::Ripple => "Рябь от нажатий"@,
            EffectType::Type => "Подсветка нажатий"@,
            EffectType::AudioBounce => "Эквалайзер"@,
            EffectType::AudioRipple => "Звуковая рябь"@,
            EffectType::AuroraSync => "Синхронизация с экраном"@,
        }
    }

    pub fn label(self) -> (s: &'static str)
        ensures
            s@ == self.label_text(),
    {
        match self {
            EffectType::Always => "Статичный цвет",
            EffectType::RainbowWave => "Радужная волна",
            EffectType::RainbowScrew => "Радужная спираль",
            EffectType::ColorWave => "Цветная волна",
            EffectType::ColorChange => "Смена цветов",
            EffectType::ColorPulse => "Пульсация",
            EffectType::Smooth => "Плавный переход",
            EffectType::Rain => "Дождь",
            EffectType::Ripple => "Рябь от нажатий",
            EffectType::Type => "Подсветка нажатий",
            EffectType::AudioBounce => "Эквалайзер",
            EffectType::AudioRipple => "Звуковая рябь",
            EffectType::AuroraSync => "Синхронизация с экраном",
        }
    }

    /// The effect has a speed setting.
    #[verifier::allow_in_spec]
    pub fn has_speed(self) -> bool
        returns
            match self {
                EffectType::ColorChange | EffectType::ColorPulse | EffectType::ColorWave
                | EffectType::Rain | EffectType::RainbowScrew | EffectType::RainbowWave
                | EffectType::Ripple | EffectType::Smooth | EffectType::Type => true,
                _ => false,
            },
    {
        match self {
            EffectType::ColorChange | EffectType::ColorPulse | EffectType::ColorWave
            | EffectType::Rain | EffectType::RainbowScrew | EffectType::RainbowWave
            | EffectType::Ripple | EffectType::Smooth | EffectType::Type => true,
            _ => false,
        }
    }

    /// The wave has a direction (up/down/left/right).
    #[verifier::allow_in_spec]
    pub fn has_direction(self) -> bool
        returns
            match self {
                EffectType::ColorWave | EffectType::RainbowWave => true,
                _ => false,
            },
    {
        match self {
            EffectType::ColorWave | EffectType::RainbowWave => true,
            _ => false,
        }
    }

    /// The effect has a sense of rotation.
    #[verifier::allow_in_spec]
    pub fn has_rotation(self) -> bool
        returns
            self is RainbowScrew,
    {
        match self {
            EffectType::RainbowScrew => true,
            _ => false,
        }
    }

    #[verifier::allow_in_spec]
    pub fn color_kind(self) -> ColorKind
        returns
            match self {
                EffectType::Always => ColorKind::Single,
                EffectType::ColorChange | EffectType::ColorPulse | EffectType::ColorWave
                | EffectType::Rain | EffectType::Ripple | EffectType::Smooth
                | EffectType::Type => ColorKind::Multi,
                _ => ColorKind::Nothing,
            },
    {
        match self {
            EffectType::Always => ColorKind::Single,
            EffectType::ColorChange | EffectType::ColorPulse | EffectType::ColorWave
            | EffectType::Rain | EffectType::Ripple | EffectType::Smooth
            | EffectType::Type => ColorKind::Multi,
            _ => ColorKind::Nothing,
        }
    }

    /// The effect always takes every zone and cancels the other layers.
    #[verifier::allow_in_spec]
    pub fn is_all_zones(self) -> bool
        returns
            match self {
                EffectType::AudioBounce | EffectType::AudioRipple
                | EffectType::AuroraSync => true,
                _ => false,
            },
    {
        match self {
            EffectType::AudioBounce | EffectType::AudioRipple | EffectType::AuroraSync => true,
            _ => false,
        }
    }

    /// The effect reacts to the whole keyboard and cannot be partly covered.
    #[verifier::allow_in_spec]
    pub fn is_whole_keyboard(self) -> bool
        returns
            match self {
                EffectType::Type | EffectType::Ripple => true,
                _ => false,
            },
    {
        match self {
            EffectType::Type | EffectType::Ripple => true,
            _ => false,
        }
    }
}

/// Direction of a wave.
#[derive(Clone, Copy, Debug, PartialEq, Eq, Default, Hash, Structural)]
pub enum Direction {
    #[default]
    Unset,
    BottomToTop,
    TopToBottom,
    RightToLeft,
    LeftToRight,
}

impl Direction {
    pub const ALL: [Direction; 4] = [
        Direction::LeftToRight,
        Direction::RightToLeft,
        Direction::BottomToTop,
        Direction::TopToBottom,
    ];

    /// The firmware's code of the direction.
    #[verifier::allow_in_spec]
    pub fn code(self) -> u8
        returns
            match self {
                Direction::Unset => 0u8,
                Direction::BottomToTop => 1u8,
                Direction::TopToBottom => 2u8,
                Direction::RightToLeft => 3u8,
                Direction::LeftToRight => 4u8,
            },
    {
        match self {
            Direction::Unset => 0,
            Direction::BottomToTop => 1,
            Direction::TopToBottom => 2,
            Direction::RightToLeft => 3,
            Direction::LeftToRight => 4,
        }
    }

    /// The direction with code `v`; an unknown code means none.
    #[verifier::allow_in_spec]
    pub fn from_u8(v: u8) -> Self
        returns
            match v {
                1u8 => Direction::BottomToTop,
                2u8 => Direction::TopToBottom,
                3u8 => Direction::RightToLeft,
                4u8 => Direction::LeftToRight,
                _ => Direction::Unset,
            },
    {
        match v {
            1 => Direction::BottomToTop,
            2 => Direction::TopToBottom,
            3 => Direction::RightToLeft,
            4 => Direction::LeftToRight,
            _ => Direction::Unset,
        }
    }

    pub open spec fn label_text(self) -> Seq<char> {
        match self {
            Direction::LeftToRight => "Вправо"@,
            Direction::RightToLeft => "Влево"@,
            Direction::BottomToTop => "Вверх"@,
            Direction::TopToBottom => "Вниз"@,
            Direction::Unset => "—"@,
        }
    }

    pub fn label(self) -> (s: &'static str)
        ensures
            s@ == self.label_text(),
    {
        match self {
            Direction::LeftToRight => "Вправо",
            Direction::RightToLeft => "Влево",
            Direction::BottomToTop => "Вверх",
            Direction::TopToBottom => "Вниз",
            Direction::Unset => "—",
        }
    }
}

/// Sense of rotation of the spiral.
#[derive(Clone, Copy, Debug, PartialEq, Eq, Default, Hash, Structural)]
pub enum Rotation {
    #[default]
    Unset,
    Clockwise,
    CounterClockwise,
}

impl Rotation {
    /// The firmware's code of the rotation.
    #[verifier::allow_in_spec]
    pub fn code(self) -> u8
        returns
            match self {
                Rotation::Unset => 0u8,
                Rotation::Clockwise => 1u8,
                Rotation::CounterClockwise => 2u8,
            },
    {
        match self {
            Rotation::Unset => 0,
            Rotation::Clockwise => 1,
            Rotation::CounterClockwise => 2,
        }
    }

    /// The rotation with code `v`; an unknown code means none.
    #[verifier::allow_in_spec]
    pub fn from_u8(v: u8) -> Self
        returns
            match v {
                1u8 => Rotation::Clockwise,
                2u8 => Rotation::CounterClockwise,
                _ => Rotation::Unset,
            },
    {
        match v {
            1 => Rotation::Clockwise,
            2 => Rotation::CounterClockwise,
            _ => Rotation::Unset,
        }
    }
}

/// One effect layer of a profile.
#[derive(Clone, Debug, PartialEq, Eq, Hash)]
pub struct Effect {
    pub kind: EffectType,
    /// 1 to 3; 0 means unset.
    pub speed: u8,
    pub direction: Direction,
    pub rotation: Rotation,
    pub colors: Vec<Rgb>,
    /// Zones (key codes). Empty for [`EffectType::is_all_zones`] effects.
    pub keys: Vec<u16>,
}

/// The mathematical value of an [`Effect`].
pub struct EffectModel {
    pub kind: EffectType,
    pub speed: u8,
    pub direction: Direction,
    pub rotation: Rotation,
    pub colors: Seq<Rgb>,
    pub keys: Seq<u16>,
}

impl View for Effect {
    type V = EffectModel;

    open spec fn view(&self) -> EffectModel {
        EffectModel {
            kind: self.kind,
            speed: self.speed,
            direction: self.direction,
            rotation: self.rotation,
            colors: self.colors@,
            keys: self.keys@,
        }
    }
}

/// The models of a sequence of effects.
pub open spec fn models(es: Seq<Effect>) -> Seq<EffectModel> {
    Seq::new(es.len(), |i: int| es[i]@)
}

/// Colour that a single-colour effect gets when it has none.
pub open spec fn default_color() -> Rgb {
    Rgb { r: 0x15, g: 0x8D, b: 0xDD }
}

/// The parameters of `e` brought in line with its kind.
pub open spec fn normalized(e: EffectModel) -> EffectModel {
    let k = e.kind;
    EffectModel {
        kind: k,
        speed: if k.has_speed() {
            if e.speed < 1 { 1u8 } else if e.speed > 3 { 3u8 } else { e.speed }
        } else {
            0u8
        },
        direction: if k.has_direction() {
            if e.direction is Unset { Direction::LeftToRight } else { e.direction }
        } else {
            Direction::Unset
        },
        rotation: if k.has_rotation() {
            if e.rotation is Unset { Rotation::Clockwise } else { e.rotation }
        } else {
            Rotation::Unset
        },
        colors: match k.color_kind() {
            ColorKind::Nothing => Seq::empty(),
            ColorKind::Single => if e.colors.len() == 0 {
                seq![default_color()]
            } else {
                e.colors.take(1)
            },
            ColorKind::Multi => e.colors,
        },
        keys: if k.is_all_zones() { Seq::empty() } else { e.keys },
    }
}

/// Number of zone codes that a layer puts on the wire.
pub open spec fn wire_key_count(e: EffectModel) -> int {
    if e.kind.is_all_zones() { 1 } else { e.keys.len() as int }
}

/// Bytes that a layer takes in the `0xCB` packet.
pub open spec fn layer_len(e: EffectModel) -> int {
    1 + 13 + 1 + 3 * e.colors.len() + 1 + 2 * wire_key_count(e)
}

/// Colour mode as the firmware expects it: 0 none, 1 random, 2 a list.
pub open spec fn color_mode_spec(e: EffectModel) -> u8 {
    match e.kind.color_kind() {
        ColorKind::Nothing => 0u8,
        ColorKind::Single => 2u8,
        ColorKind::Multi => if e.colors.len() == 0 { 1u8 } else { 2u8 },
    }
}

impl Effect {
    /// A new layer with sensible default parameters.
    pub fn new(kind: EffectType, keys: Vec<u16>) -> (e: Self)
        ensures
            e@ == normalized(
                EffectModel {
                    kind,
                    speed: 0,
                    direction: Direction::Unset,
                    rotation: Rotation::Unset,
                    colors: Seq::empty(),
                    keys: keys@,
                },
            ),
    {
        let mut e = Effect {
            kind,
            speed: 0,
            direction: Direction::Unset,
            rotation: Rotation::Unset,
            colors: Vec::new(),
            keys: if kind.is_all_zones() { Vec::new() } else { keys },
        };
        e.normalize();
        e
    }

    /// Brings the parameters in line with the kind (after the kind changed).
    pub fn normalize(&mut self)
        ensures
            final(self)@ == normalized(old(self)@),
    {
        let k = self.kind;
        if k.has_speed() {
            if self.speed < 1 {
                self.speed = 1;
            } else if self.speed > 3 {
                self.speed = 3;
            }
        } else {
            self.speed = 0;
        }
        if k.has_direction() {
            if self.direction == Direction::Unset {
                self.direction = Direction::LeftToRight;
            }
        } else {
            self.direction = Direction::Unset;
        }
        if k.has_rotation() {
            if self.rotation == Rotation::Unset {
                self.rotation = Rotation::Clockwise;
            }
        } else {
            self.rotation = Rotation::Unset;
        }
        match k.color_kind() {
            ColorKind::Nothing => self.colors.clear(),
            ColorKind::Single => {
                self.colors.truncate(1);
                if self.colors.len() == 0 {
                    self.colors.push(Rgb::new(0x15, 0x8D, 0xDD));
                }
            },
            ColorKind::Multi => {},
        }
        if k.is_all_zones() {
            self.keys.clear();
        }
        assert(self@.colors =~= normalized(old(self)@).colors);
        assert(self@.keys =~= normalized(old(self)@).keys);
    }

    /// Colour mode as the firmware expects it: 0 none, 1 random, 2 a list.
    fn color_mode(&self) -> (m: u8)
        ensures
            m == color_mode_spec(self@),
    {
        match self.kind.color_kind() {
            ColorKind::Nothing => 0,
            ColorKind::Single => 2,
            ColorKind::Multi => if self.colors.len() == 0 { 1 } else { 2 },
        }
    }

    /// Bytes that the layer takes in the `0xCB` packet.
    fn encoded_len(&self) -> (n: usize)
        requires
            layer_len(self@) <= usize::MAX,
        ensures
            n == layer_len(self@),
    {
        let keys = if self.kind.is_all_zones() { 1 } else { self.keys.len() };
        1 + 13 + 1 + 3 * self.colors.len() + 1 + 2 * keys
    }
}

/// Normalizing keeps the kind, clamps a speed into 1..=3 for a kind that has
/// a speed (a speed already in that range stays as it was) and clears it for
/// one that has none.
pub proof fn law_normalize_speed(e: EffectModel)
    ensures
        normalized(e).kind == e.kind,
        e.kind.has_speed() && 1 <= e.speed <= 3 ==> normalized(e).speed == e.speed,
        e.kind.has_speed() && e.speed < 1 ==> normalized(e).speed == 1,
        e.kind.has_speed() && e.speed > 3 ==> normalized(e).speed == 3,
        !e.kind.has_speed() ==> normalized(e).speed == 0,
{
}

/// Normalizing twice changes nothing more than normalizing once.
pub proof fn lemma_normalize_idempotent(e: EffectModel)
    ensures
        normalized(normalized(e)) == normalized(e),
{
    let n = normalized(e);
    assert(normalized(n).colors =~= n.colors);
    assert(normalized(n).keys =~= n.keys);
}

} // verus!
