//! The profile description (`0xCB` write, `0xCC` read) and the other
//! responses of the controller, as bytes.
//!
//! A profile description is a 7-byte header followed by one record per layer:
//!
//! ```text
//! [no] [06 01 kind 02 speed 03 rotation 04 direction 05 colour-mode 06 00]
//! [n colours] [r g b]… [n zones] [lo hi]…
//! ```

use vstd::prelude::*;
use super::layers::{compress_prefix, compress_spec, lemma_survivor_len, survivor, with_keys};
use super::{
    op, zeros, color_mode_spec, layer_len, models, wire_key_count, Effect, EffectModel, Packet, Rgb,
    REPORT_ID, REPORT_LEN, ALL_ZONES, EffectType, Direction, Rotation,
};

verus! {

/// Low byte of a little-endian zone code.
pub open spec fn le_lo(k: u16) -> u8 {
    (k % 256) as u8
}

/// High byte of a little-endian zone code.
pub open spec fn le_hi(k: u16) -> u8 {
    (k / 256) as u8
}

/// The zone code stored little-endian in `lo`, `hi`.
pub open spec fn le16(lo: u8, hi: u8) -> u16 {
    (lo + 256 * hi) as u16
}

/// The zones that a layer puts on the wire: the all-zones marker for
/// effects that always cover everything.
pub open spec fn wire_keys(e: EffectModel) -> Seq<u16> {
    if e.kind.is_all_zones() {
        seq![ALL_ZONES]
    } else {
        e.keys
    }
}

pub open spec fn color_byte(c: Rgb, t: int) -> u8 {
    if t == 0 {
        c.r
    } else if t == 1 {
        c.g
    } else {
        c.b
    }
}

/// Colours as consecutive `r g b` triples.
pub open spec fn colors_bytes(cs: Seq<Rgb>) -> Seq<u8> {
    Seq::new((3 * cs.len()) as nat, |i: int| color_byte(cs[i / 3], i % 3))
}

/// Zone codes as consecutive little-endian pairs.
pub open spec fn keys_bytes(ks: Seq<u16>) -> Seq<u8> {
    Seq::new(
        (2 * ks.len()) as nat,
        |i: int|
            if i % 2 == 0 {
                le_lo(ks[i / 2])
            } else {
                le_hi(ks[i / 2])
            },
    )
}

/// The 13 parameter bytes of a layer.
pub open spec fn layer_header(e: EffectModel) -> Seq<u8> {
    seq![
        0x06u8,
        0x01u8,
        e.kind.code(),
        0x02u8,
        e.speed,
        0x03u8,
        e.rotation.code(),
        0x04u8,
        e.direction.code(),
        0x05u8,
        color_mode_spec(e),
        0x06u8,
        0x00u8,
    ]
}

/// The record of layer number `no`.
pub open spec fn layer_bytes(no: u8, e: EffectModel) -> Seq<u8> {
    seq![no] + layer_header(e) + seq![e.colors.len() as u8] + colors_bytes(e.colors) + seq![
        wire_keys(e).len() as u8,
    ] + keys_bytes(wire_keys(e))
}

/// The records of all layers, numbered from 1.
pub open spec fn body_bytes(es: Seq<EffectModel>) -> Seq<u8>
    decreases es.len(),
{
    if es.len() == 0 {
        Seq::empty()
    } else {
        body_bytes(es.drop_last()) + layer_bytes(es.len() as u8, es.last())
    }
}

/// Bytes that the records of all layers take.
pub open spec fn body_len(es: Seq<EffectModel>) -> int
    decreases es.len(),
{
    if es.len() == 0 {
        0
    } else {
        body_len(es.drop_last()) + layer_len(es.last())
    }
}

/// Whole description length: header plus records.
pub open spec fn description_len(es: Seq<EffectModel>) -> int {
    7 + body_len(es)
}

pub open spec fn effects_header(profile: u8) -> Seq<u8> {
    seq![REPORT_ID, op::SET_EFFECTS, 0xC0u8, 0x03u8, profile, 0x01u8, 0x01u8]
}

/// Some layer has more than 255 zones or colours.
pub open spec fn too_many_items(es: Seq<EffectModel>) -> bool {
    exists|i: int|
        0 <= i < es.len() && (wire_key_count(#[trigger] es[i]) > 255 || es[i].colors.len() > 255)
}

/// The `0xCB` packet that writes `es` into `profile`, or why it cannot be built.
pub open spec fn encode_spec(profile: u8, es: Seq<EffectModel>) -> Result<Seq<u8>, EncodeError> {
    let total = description_len(es);
    if total > REPORT_LEN {
        Err(EncodeError::TooLarge(total as usize))
    } else if too_many_items(es) {
        Err(EncodeError::TooManyItems)
    } else {
        Ok(effects_header(profile) + body_bytes(es) + zeros(REPORT_LEN - total))
    }
}

#[derive(Debug, PartialEq, Eq)]
pub enum EncodeError {
    /// The description does not fit into a packet.
    TooLarge(usize),
    /// A layer has more than 255 zones or colours.
    TooManyItems,
}

impl EncodeError {
    pub open spec fn message_text(&self) -> Seq<char> {
        match self {
            EncodeError::TooLarge(n) => "описание профиля занимает "@ + crate::text::decimal_spec(
                *n as nat,
            ) + " байт из 960 — уменьшите число слоёв"@,
            EncodeError::TooManyItems => "в слое больше 255 зон или цветов"@,
        }
    }

    /// The message shown to the user.
    pub fn message(&self) -> (s: String)
        ensures
            s@ == self.message_text(),
    {
        match self {
            EncodeError::TooLarge(n) => {
                let mut s = String::from_str("описание профиля занимает ");
                s.append(crate::text::decimal(*n as u64).as_str());
                s.append(" байт из 960 — уменьшите число слоёв");
                s
            },
            EncodeError::TooManyItems => String::from_str("в слое больше 255 зон или цветов"),
        }
    }
}

proof fn lemma_layer_len(no: u8, e: EffectModel)
    ensures
        layer_bytes(no, e).len() == layer_len(e),
        layer_len(e) >= 16,
{
}

/// The layers' bytes are as long as `body_len` says, at least 16 per layer.
pub proof fn lemma_body_len(es: Seq<EffectModel>)
    ensures
        body_bytes(es).len() == body_len(es),
        body_len(es) >= 16 * es.len(),
    decreases es.len(),
{
    if es.len() > 0 {
        lemma_body_len(es.drop_last());
        lemma_layer_len(es.len() as u8, es.last());
    }
}

proof fn lemma_body_len_prefix(es: Seq<EffectModel>, i: int)
    requires
        0 <= i < es.len(),
    ensures
        body_len(es.take(i + 1)) == body_len(es.take(i)) + layer_len(es[i]),
        body_bytes(es.take(i + 1)) == body_bytes(es.take(i)) + layer_bytes((i + 1) as u8, es[i]),
{
    assert(es.take(i + 1).drop_last() =~= es.take(i));
}

proof fn lemma_body_len_monotone(es: Seq<EffectModel>, i: int)
    requires
        0 <= i <= es.len(),
    ensures
        body_len(es.take(i)) <= body_len(es),
    decreases es.len() - i,
{
    if i < es.len() {
        lemma_body_len_prefix(es, i);
        lemma_body_len_monotone(es, i + 1);
    } else {
        assert(es.take(i) =~= es);
    }
}

/// Appends the record of layer number `no`.
#[verifier::rlimit(50)]
#[verifier::spinoff_prover]
fn encode_layer(out: &mut Vec<u8>, no: u8, e: &Effect)
    requires
        wire_key_count(e@) <= 255,
        e.colors@.len() <= 255,
    ensures
        final(out)@ == old(out)@ + layer_bytes(no, e@),
{
    let all = e.kind.is_all_zones();
    let nkeys: usize = if all { 1 } else { e.keys.len() };
    let ghost base = out@;
    out.push(no);
    out.push(0x06);
    out.push(0x01);
    out.push(e.kind.code());
    out.push(0x02);
    out.push(e.speed);
    out.push(0x03);
    out.push(e.rotation.code());
    out.push(0x04);
    out.push(e.direction.code());
    out.push(0x05);
    out.push(e.color_mode());
    out.push(0x06);
    out.push(0x00);
    out.push(e.colors.len() as u8);
    let ghost mid = out@;
    assert(mid =~= base + seq![no] + layer_header(e@) + seq![e@.colors.len() as u8]);
    let mut j: usize = 0;
    while j < e.colors.len()
        invariant
            j <= e.colors@.len() <= 255,
            out@ == mid + colors_bytes(e.colors@.take(j as int)),
        decreases e.colors@.len() - j,
    {
        let c = e.colors[j];
        out.push(c.r);
        out.push(c.g);
        out.push(c.b);
        assert(colors_bytes(e.colors@.take(j + 1)) =~= colors_bytes(e.colors@.take(j as int))
            + seq![c.r, c.g, c.b]);
        j = j + 1;
    }
    assert(e.colors@.take(j as int) =~= e.colors@);
    out.push(nkeys as u8);
    let ghost kmid = out@;
    if all {
        out.push(0x65);
        out.push(0x00);
        assert(keys_bytes(wire_keys(e@)) =~= seq![0x65u8, 0x00u8]);
    } else {
        let mut j: usize = 0;
        while j < e.keys.len()
            invariant
                j <= e.keys@.len() <= 255,
                out@ == kmid + keys_bytes(e.keys@.take(j as int)),
            decreases e.keys@.len() - j,
        {
            let k = e.keys[j];
            out.push((k % 256) as u8);
            out.push((k / 256) as u8);
            assert(keys_bytes(e.keys@.take(j + 1)) =~= keys_bytes(e.keys@.take(j as int)) + seq![
                le_lo(k),
                le_hi(k),
            ]);
            j = j + 1;
        }
        assert(e.keys@.take(j as int) =~= e.keys@);
    }
    assert(out@ =~= base + layer_bytes(no, e@));
}

/// Packet `0xCB`: writes the layers into profile `profile` (1 to 6).
pub fn encode_effects(profile: u8, effects: &[Effect]) -> (r: Result<Packet, EncodeError>)
    requires
        description_len(models(effects@)) <= usize::MAX,
    ensures
        match (r, encode_spec(profile, models(effects@))) {
            (Ok(p), Ok(s)) => p@ == s,
            (Err(a), Err(b)) => a == b,
            _ => false,
        },
{
    let ghost es = models(effects@);
    let n = effects.len();
    let mut total: usize = 7;
    let mut i: usize = 0;
    while i < n
        invariant
            i <= n == es.len(),
            es == models(effects@),
            description_len(es) <= usize::MAX,
            total == 7 + body_len(es.take(i as int)),
        decreases n - i,
    {
        proof {
            lemma_body_len_prefix(es, i as int);
            lemma_body_len_monotone(es, i + 1);
        }
        assert(effects@[i as int]@ == es[i as int]);
        total = total + effects[i].encoded_len();
        i = i + 1;
    }
    assert(es.take(n as int) =~= es);
    if total > 960 {
        return Err(EncodeError::TooLarge(total));
    }
    proof {
        lemma_body_len(es);
    }
    let mut out: Vec<u8> = Vec::new();
    out.push(REPORT_ID);
    out.push(op::SET_EFFECTS);
    out.push(0xC0);
    out.push(0x03);
    out.push(profile);
    out.push(0x01);
    out.push(0x01);
    assert(out@ =~= effects_header(profile) + body_bytes(es.take(0)));
    let mut i: usize = 0;
    while i < n
        invariant
            i <= n == es.len(),
            n <= 59,
            es == models(effects@),
            description_len(es) <= REPORT_LEN,
            out@ == effects_header(profile) + body_bytes(es.take(i as int)),
            forall|t: int|
                0 <= t < i ==> !(wire_key_count(#[trigger] es[t]) > 255 || es[t].colors.len() > 255),
        decreases n - i,
    {
        let e = &effects[i];
        assert(e@ == es[i as int]);
        let all = e.kind.is_all_zones();
        let nkeys: usize = if all { 1 } else { e.keys.len() };
        if nkeys > 255 || e.colors.len() > 255 {
            assert(too_many_items(es));
            return Err(EncodeError::TooManyItems);
        }
        proof {
            lemma_body_len_prefix(es, i as int);
        }
        encode_layer(&mut out, i as u8 + 1, e);
        i = i + 1;
    }
    assert(es.take(n as int) =~= es);
    assert(!too_many_items(es));
    let mut b = [0u8; 960];
    let len = out.len();
    let mut j: usize = 0;
    while j < len
        invariant
            j <= len == out@.len() <= REPORT_LEN,
            b@.len() == REPORT_LEN,
            forall|t: int| 0 <= t < j ==> b@[t] == out@[t],
            forall|t: int| j <= t < REPORT_LEN ==> b@[t] == 0,
        decreases len - j,
    {
        b[j] = out[j];
        j = j + 1;
    }
    assert(b@ =~= effects_header(profile) + body_bytes(es) + zeros(REPORT_LEN - total));
    Ok(b)
}

pub open spec fn rgb_at(buf: Seq<u8>, p: int) -> Rgb {
    Rgb { r: buf[p], g: buf[p + 1], b: buf[p + 2] }
}

/// `n` colours stored as triples from `p`.
pub open spec fn decode_colors(buf: Seq<u8>, p: int, n: int) -> Seq<Rgb> {
    Seq::new(n as nat, |j: int| rgb_at(buf, p + 3 * j))
}

/// `n` zone codes stored as little-endian pairs from `p`.
pub open spec fn decode_keys(buf: Seq<u8>, p: int, n: int) -> Seq<u16> {
    Seq::new(n as nat, |j: int| le16(buf[p + 2 * j], buf[p + 2 * j + 1]))
}

/// Zones of a read layer: the all-zones marker and all-zones effects mean no
/// explicit zones.
pub open spec fn read_keys(kind: EffectType, keys: Seq<u16>) -> Seq<u16> {
    if kind.is_all_zones() || keys == seq![ALL_ZONES] {
        Seq::empty()
    } else {
        keys
    }
}

/// The layers recorded from `pos` on, the previous layer having number
/// `last_no`. Reading stops at the end of the buffer, at a layer number that
/// goes down and at an unknown effect kind; a record cut short makes the
/// whole description unreadable (`None`).
pub open spec fn decode_layers(buf: Seq<u8>, pos: int, last_no: u8) -> Option<Seq<EffectModel>>
    decreases buf.len() - pos,
{
    if pos < 0 || pos >= buf.len() {
        Some(Seq::empty())
    } else if buf[pos] < last_no {
        Some(Seq::empty())
    } else if pos + 14 > buf.len() {
        None
    } else {
        let h = pos + 1;
        match EffectType::from_u8(buf[h + 2]) {
            None => Some(Seq::empty()),
            Some(kind) => {
                let cpos = pos + 14;
                if cpos >= buf.len() {
                    None
                } else {
                    let nc = buf[cpos] as int;
                    let kpos = cpos + 1 + 3 * nc;
                    if kpos >= buf.len() {
                        None
                    } else {
                        let nk = buf[kpos] as int;
                        let next = kpos + 1 + 2 * nk;
                        if next > buf.len() {
                            None
                        } else {
                            let e = EffectModel {
                                kind,
                                speed: buf[h + 4],
                                rotation: Rotation::from_u8(buf[h + 6]),
                                direction: Direction::from_u8(buf[h + 8]),
                                colors: decode_colors(buf, cpos + 1, nc),
                                keys: read_keys(kind, decode_keys(buf, kpos + 1, nk)),
                            };
                            match decode_layers(buf, next, buf[pos]) {
                                None => None,
                                Some(rest) => Some(seq![e] + rest),
                            }
                        }
                    }
                }
            },
        }
    }
}

/// The profile number and layers of a `0xCC` response.
pub open spec fn decode_spec(buf: Seq<u8>) -> Option<(u8, Seq<EffectModel>)> {
    if buf.len() < 2 || buf[0] != REPORT_ID || buf[1] != op::GET_EFFECTS || buf.len() < 7 {
        None
    } else {
        match decode_layers(buf, 7, 1) {
            None => None,
            Some(es) => Some((buf[4], es)),
        }
    }
}

pub open spec fn decoded_view(r: Option<(u8, Vec<Effect>)>) -> Option<(u8, Seq<EffectModel>)> {
    match r {
        None => None,
        Some((p, v)) => Some((p, models(v@))),
    }
}

pub open spec fn prepend(a: Seq<EffectModel>, o: Option<Seq<EffectModel>>) -> Option<Seq<EffectModel>> {
    match o {
        None => None,
        Some(x) => Some(a + x),
    }
}

/// A cursor over a byte buffer.
struct Reader<'a> {
    buf: &'a [u8],
    pos: usize,
}

impl<'a> Reader<'a> {
    fn u8(&mut self) -> (r: Option<u8>)
        requires
            old(self).pos <= old(self).buf@.len(),
        ensures
            final(self).buf == old(self).buf,
            old(self).pos < old(self).buf@.len() ==> r == Some(old(self).buf@[old(self).pos as int])
                && final(self).pos == old(self).pos + 1,
            old(self).pos >= old(self).buf@.len() ==> r is None && final(self).pos == old(self).pos,
    {
        if self.pos < self.buf.len() {
            let v = self.buf[self.pos];
            self.pos = self.pos + 1;
            Some(v)
        } else {
            None
        }
    }

    fn take(&mut self, n: usize) -> (r: Option<&'a [u8]>)
        requires
            old(self).pos <= old(self).buf@.len(),
        ensures
            final(self).buf == old(self).buf,
            old(self).pos + n <= old(self).buf@.len() ==> r is Some && r->0@ == old(
                self,
            ).buf@.subrange(old(self).pos as int, old(self).pos + n) && final(self).pos == old(
                self,
            ).pos + n,
            old(self).pos + n > old(self).buf@.len() ==> r is None && final(self).pos == old(
                self,
            ).pos,
    {
        if n <= self.buf.len() - self.pos {
            let s = vstd::slice::slice_subrange(self.buf, self.pos, self.pos + n);
            self.pos = self.pos + n;
            Some(s)
        } else {
            None
        }
    }

    fn skip(&mut self, n: usize) -> (r: Option<()>)
        requires
            old(self).pos <= old(self).buf@.len(),
        ensures
            final(self).buf == old(self).buf,
            old(self).pos + n <= old(self).buf@.len() ==> r is Some && final(self).pos == old(
                self,
            ).pos + n,
            old(self).pos + n > old(self).buf@.len() ==> r is None && final(self).pos == old(
                self,
            ).pos,
    {
        match self.take(n) {
            Some(_) => Some(()),
            None => None,
        }
    }
}

/// Reads one layer record at the reader's position (just after the layer
/// number `no`); `Err(())` when the record is cut short, `Ok(None)` when the
/// kind is unknown.
fn decode_layer(r: &mut Reader) -> (res: Result<Option<Effect>, ()>)
    requires
        1 <= old(r).pos <= old(r).buf@.len(),
    ensures
        final(r).buf@ == old(r).buf@,
        final(r).pos <= final(r).buf@.len(),
        ({
            let buf = old(r).buf@;
            let pos = old(r).pos - 1;
            let h = pos + 1;
            if pos + 14 > buf.len() {
                res is Err
            } else {
                match EffectType::from_u8(buf[h + 2]) {
                    None => res == Ok::<Option<Effect>, ()>(None),
                    Some(kind) => {
                        let cpos = pos + 14;
                        if cpos >= buf.len() {
                            res is Err
                        } else {
                            let nc = buf[cpos] as int;
                            let kpos = cpos + 1 + 3 * nc;
                            if kpos >= buf.len() {
                                res is Err
                            } else {
                                let nk = buf[kpos] as int;
                                let next = kpos + 1 + 2 * nk;
                                if next > buf.len() {
                                    res is Err
                                } else {
                                    res matches Ok(Some(e)) && final(r).pos == next && e@ == (
                                    EffectModel {
                                        kind,
                                        speed: buf[h + 4],
                                        rotation: Rotation::from_u8(buf[h + 6]),
                                        direction: Direction::from_u8(buf[h + 8]),
                                        colors: decode_colors(buf, cpos + 1, nc),
                                        keys: read_keys(kind, decode_keys(buf, kpos + 1, nk)),
                                    })
                                }
                            }
                        }
                    },
                }
            }
        }),
{
    let ghost buf = r.buf@;
    let ghost pos = r.pos - 1;
    let h = match r.take(13) {
        Some(h) => h,
        None => return Err(()),
    };
    let kind = match EffectType::from_u8(h[2]) {
        Some(k) => k,
        None => return Ok(None),
    };
    let n_colors = match r.u8() {
        Some(n) => n as usize,
        None => return Err(()),
    };
    let mut colors: Vec<Rgb> = Vec::new();
    let mut j: usize = 0;
    while j < n_colors
        invariant
            r.buf@ == buf,
            j <= n_colors <= 255,
            0 <= pos,
            pos + 14 < buf.len(),
            buf == old(r).buf@,
            pos == old(r).pos - 1,
            EffectType::from_u8(buf[pos + 3]) == Some(kind),
            n_colors == buf[pos + 14],
            r.pos == pos + 15 + 3 * j,
            r.pos <= buf.len(),
            colors@ == decode_colors(buf, pos + 15, j as int),
        decreases n_colors - j,
    {
        let c = match r.take(3) {
            Some(c) => c,
            None => {
                assert(pos + 15 + 3 * n_colors >= buf.len());
                return Err(());
            },
        };
        colors.push(Rgb::new(c[0], c[1], c[2]));
        assert(colors@ =~= decode_colors(buf, pos + 15, j + 1));
        j = j + 1;
    }
    let n_keys = match r.u8() {
        Some(n) => n as usize,
        None => return Err(()),
    };
    let ghost kpos = pos + 15 + 3 * n_colors;
    let mut keys: Vec<u16> = Vec::new();
    let mut j: usize = 0;
    while j < n_keys
        invariant
            r.buf@ == buf,
            j <= n_keys <= 255,
            0 <= pos,
            pos + 14 < buf.len(),
            buf == old(r).buf@,
            pos == old(r).pos - 1,
            EffectType::from_u8(buf[pos + 3]) == Some(kind),
            n_colors == buf[pos + 14],
            kpos == pos + 15 + 3 * n_colors,
            kpos < buf.len(),
            n_keys == buf[kpos],
            r.pos == kpos + 1 + 2 * j,
            r.pos <= buf.len(),
            keys@ == decode_keys(buf, kpos + 1, j as int),
        decreases n_keys - j,
    {
        let k = match r.take(2) {
            Some(k) => k,
            None => {
                assert(kpos + 1 + 2 * n_keys > buf.len());
                return Err(());
            },
        };
        keys.push(k[0] as u16 + 256 * k[1] as u16);
        assert(keys@ =~= decode_keys(buf, kpos + 1, j + 1));
        j = j + 1;
    }
    assert((keys@.len() == 1 && keys@[0] == ALL_ZONES) <==> keys@ =~= seq![ALL_ZONES]);
    if kind.is_all_zones() || (keys.len() == 1 && keys[0] == ALL_ZONES) {
        keys.clear();
    }
    assert(keys@ =~= read_keys(kind, decode_keys(buf, kpos + 1, n_keys as int)));
    Ok(Some(Effect {
        kind,
        speed: h[4],
        rotation: Rotation::from_u8(h[6]),
        direction: Direction::from_u8(h[8]),
        colors,
        keys,
    }))
}

/// Response to `0xCC`: the profile number and its layers.
pub fn decode_effects(buf: &[u8]) -> (r: Option<(u8, Vec<Effect>)>)
    ensures
        decoded_view(r) == decode_spec(buf@),
{
    let mut r = Reader { buf, pos: 0 };
    match r.u8() {
        Some(v) => if v != REPORT_ID {
            return None;
        },
        None => return None,
    }
    match r.u8() {
        Some(v) => if v != op::GET_EFFECTS {
            return None;
        },
        None => return None,
    }
    if r.skip(2).is_none() {
        return None;
    }
    let profile = match r.u8() {
        Some(p) => p,
        None => return None,
    };
    if r.skip(2).is_none() {
        return None;
    }
    let mut effects: Vec<Effect> = Vec::new();
    let mut last_no: u8 = 1;
    loop
        invariant
            r.buf@ == buf@,
            7 <= r.pos <= buf@.len(),
            buf@.len() >= 7,
            buf@[0] == REPORT_ID,
            buf@[1] == op::GET_EFFECTS,
            profile == buf@[4],
            decode_layers(buf@, 7, 1) == prepend(models(effects@), decode_layers(buf@, r.pos as int, last_no)),
        decreases buf@.len() - r.pos,
    {
        let ghost pos = r.pos as int;
        let no = match r.u8() {
            Some(no) => no,
            None => {
                assert(models(effects@) + Seq::empty() =~= models(effects@));
                return Some((profile, effects));
            },
        };
        if no < last_no {
            assert(models(effects@) + Seq::empty() =~= models(effects@));
            return Some((profile, effects));
        }
        last_no = no;
        match decode_layer(&mut r) {
            Err(()) => return None,
            Ok(None) => {
                assert(models(effects@) + Seq::empty() =~= models(effects@));
                return Some((profile, effects));
            },
            Ok(Some(e)) => {
                let ghost prev = effects@;
                effects.push(e);
                assert(models(effects@) =~= models(prev) + seq![e@]);
                assert(decode_layers(buf@, pos, no) == prepend(seq![e@], decode_layers(buf@, r.pos as int, no)));
                assert forall|x: Seq<EffectModel>| models(prev) + (seq![e@] + x) == models(effects@) + x by {
                    assert(models(prev) + (seq![e@] + x) =~= models(effects@) + x);
                }
            },
        }
    }
}

/// A layer as it reads back: explicit zones disappear where the wire holds
/// the all-zones marker.
pub open spec fn read_back(e: EffectModel) -> EffectModel {
    EffectModel { keys: read_keys(e.kind, e.keys), ..e }
}

pub open spec fn read_back_all(es: Seq<EffectModel>) -> Seq<EffectModel> {
    Seq::new(es.len(), |i: int| read_back(es[i]))
}

proof fn lemma_decode_one_layer(buf: Seq<u8>, pos: int, no: u8, last: u8, e: EffectModel)
    requires
        0 <= pos,
        pos + layer_len(e) <= buf.len(),
        buf.subrange(pos, pos + layer_len(e)) == layer_bytes(no, e),
        last <= no,
        wire_key_count(e) <= 255,
        e.colors.len() <= 255,
    ensures
        decode_layers(buf, pos, last) == prepend(
            seq![read_back(e)],
            decode_layers(buf, pos + layer_len(e), no),
        ),
{
    let lb = layer_bytes(no, e);
    let nc = e.colors.len() as int;
    let wk = wire_keys(e);
    let nk = wk.len() as int;
    lemma_layer_len(no, e);
    assert(lb.len() == 16 + 3 * nc + 2 * nk);
    assert forall|t: int| 0 <= t < lb.len() implies buf[pos + t] == #[trigger] lb[t] by {
        assert(buf.subrange(pos, pos + layer_len(e))[t] == buf[pos + t]);
    }
    let h = pos + 1;
    assert(buf[pos] == no) by {
        assert(lb[0] == no);
    }
    assert(buf[h + 2] == e.kind.code()) by {
        assert(lb[3] == layer_header(e)[2]);
    }
    assert(buf[h + 4] == e.speed) by {
        assert(lb[5] == layer_header(e)[4]);
    }
    assert(buf[h + 6] == e.rotation.code()) by {
        assert(lb[7] == layer_header(e)[6]);
    }
    assert(buf[h + 8] == e.direction.code()) by {
        assert(lb[9] == layer_header(e)[8]);
    }
    assert(buf[pos + 14] == nc) by {
        assert(lb[14] == nc as u8);
    }
    let cb = colors_bytes(e.colors);
    assert forall|m: int| 0 <= m < 3 * nc implies buf[pos + 15 + m] == #[trigger] cb[m] by {
        assert(lb[15 + m] == cb[m]);
    }
    let kpos = pos + 15 + 3 * nc;
    assert(buf[kpos] == nk) by {
        assert(lb[15 + 3 * nc] == nk as u8);
    }
    let kb = keys_bytes(wk);
    assert forall|m: int| 0 <= m < 2 * nk implies buf[kpos + 1 + m] == #[trigger] kb[m] by {
        assert(lb[16 + 3 * nc + m] == kb[m]);
    }
    let colors = decode_colors(buf, pos + 15, nc);
    assert forall|j: int| 0 <= j < nc implies #[trigger] colors[j] == e.colors[j] by {
        assert(cb[3 * j] == e.colors[j].r);
        assert(cb[3 * j + 1] == e.colors[j].g);
        assert(cb[3 * j + 2] == e.colors[j].b);
    }
    assert(colors =~= e.colors);
    let keys = decode_keys(buf, kpos + 1, nk);
    assert forall|j: int| 0 <= j < nk implies #[trigger] keys[j] == wk[j] by {
        assert(kb[2 * j] == le_lo(wk[j]));
        assert(kb[2 * j + 1] == le_hi(wk[j]));
    }
    assert(keys =~= wk);
    assert(read_keys(e.kind, wk) =~= read_keys(e.kind, e.keys));
}

proof fn lemma_body_prefix(es: Seq<EffectModel>, i: int)
    requires
        0 <= i <= es.len(),
    ensures
        body_bytes(es.take(i)) == body_bytes(es).subrange(0, body_len(es.take(i))),
    decreases es.len() - i,
{
    lemma_body_len(es.take(i));
    lemma_body_len(es);
    lemma_body_len_monotone(es, i);
    if i < es.len() {
        lemma_body_len_monotone(es, i + 1);
        lemma_body_prefix(es, i + 1);
        lemma_body_len_prefix(es, i);
        lemma_body_len(es.take(i + 1));
        assert(body_bytes(es.take(i)) =~= body_bytes(es.take(i + 1)).subrange(
            0,
            body_len(es.take(i)),
        ));
        assert(body_bytes(es.take(i)) =~= body_bytes(es).subrange(0, body_len(es.take(i))));
    } else {
        assert(es.take(i) =~= es);
        assert(body_bytes(es) =~= body_bytes(es).subrange(0, body_len(es)));
    }
}

/// Byte 11 of layer `i`'s record in a written description (its colour mode)
/// is 0 for a kind without colours and 2 for a single-colour kind; for a kind
/// that takes a list it is 1 (random colours) when the list is empty and 2
/// when it is not.
pub proof fn law_color_mode_byte(profile: u8, es: Seq<EffectModel>, i: int)
    requires
        encode_spec(profile, es) is Ok,
        0 <= i < es.len(),
    ensures
        ({
            let b = encode_spec(profile, es)->Ok_0[7 + body_len(es.take(i)) + 11];
            &&& es[i].kind.color_kind() is Nothing ==> b == 0
            &&& es[i].kind.color_kind() is Single ==> b == 2
            &&& es[i].kind.color_kind() is Multi && es[i].colors.len() == 0 ==> b == 1
            &&& es[i].kind.color_kind() is Multi && es[i].colors.len() > 0 ==> b == 2
        }),
{
    let pkt = encode_spec(profile, es)->Ok_0;
    let bl = body_len(es.take(i));
    lemma_body_len(es);
    lemma_body_len(es.take(i));
    lemma_body_len(es.take(i + 1));
    lemma_body_len_prefix(es, i);
    lemma_body_len_monotone(es, i + 1);
    lemma_body_prefix(es, i + 1);
    lemma_layer_len((i + 1) as u8, es[i]);
    let lb = layer_bytes((i + 1) as u8, es[i]);
    assert(lb[11] == color_mode_spec(es[i]));
    assert(body_bytes(es.take(i + 1))[bl + 11] == lb[11]);
    assert(body_bytes(es)[bl + 11] == body_bytes(es.take(i + 1))[bl + 11]);
    assert(pkt[7 + bl + 11] == body_bytes(es)[bl + 11]);
}

/// Reading back a written description gives each layer from layer `j` on.
proof fn lemma_decode_from(buf: Seq<u8>, es: Seq<EffectModel>, j: int)
    requires
        0 <= j <= es.len(),
        description_len(es) <= REPORT_LEN,
        !too_many_items(es),
        buf.len() == REPORT_LEN,
        buf.subrange(7, description_len(es)) == body_bytes(es),
        forall|t: int| description_len(es) <= t < REPORT_LEN ==> buf[t] == 0,
    ensures
        decode_layers(buf, 7 + body_len(es.take(j)), if j == 0 { 1u8 } else { j as u8 }) == Some(
            read_back_all(es.skip(j)),
        ),
    decreases es.len() - j,
{
    lemma_body_len(es);
    lemma_body_len_monotone(es, j);
    let pos = 7 + body_len(es.take(j));
    let last: u8 = if j == 0 { 1u8 } else { j as u8 };
    if j == es.len() {
        assert(es.take(j) =~= es);
        assert(read_back_all(es.skip(j)) =~= Seq::<EffectModel>::empty());
        if pos < REPORT_LEN {
            assert(buf[pos] == 0);
        }
    } else {
        lemma_body_len_prefix(es, j);
        lemma_body_len_monotone(es, j + 1);
        lemma_body_prefix(es, j + 1);
        lemma_body_len(es.take(j + 1));
        let e = es[j];
        let lb = layer_bytes((j + 1) as u8, e);
        lemma_layer_len((j + 1) as u8, e);
        let bb = body_bytes(es);
        assert(body_bytes(es.take(j + 1)) == body_bytes(es.take(j)) + lb);
        assert forall|t: int| 0 <= t < layer_len(e) implies buf[pos + t] == #[trigger] lb[t] by {
            assert(buf.subrange(7, description_len(es))[pos - 7 + t] == buf[pos + t]);
            assert(bb.subrange(0, body_len(es.take(j + 1)))[pos - 7 + t] == bb[pos - 7 + t]);
            assert(body_bytes(es.take(j + 1))[body_len(es.take(j)) + t] == lb[t]);
        }
        assert(buf.subrange(pos, pos + layer_len(e)) =~= lb);
        assert(!(wire_key_count(es[j]) > 255 || es[j].colors.len() > 255));
        lemma_decode_one_layer(buf, pos, (j + 1) as u8, last, e);
        lemma_decode_from(buf, es, j + 1);
        assert(read_back_all(es.skip(j)) =~= seq![read_back(e)] + read_back_all(es.skip(j + 1)));
    }
}

/// What a written profile description reads back as: the profile number and
/// the same layers, except that explicit zones disappear where the wire holds
/// the all-zones marker.
pub proof fn lemma_encode_decode_roundtrip(profile: u8, es: Seq<EffectModel>)
    requires
        encode_spec(profile, es) is Ok,
    ensures
        decode_spec(encode_spec(profile, es)->Ok_0.update(1, op::GET_EFFECTS)) == Some(
            (profile, read_back_all(es)),
        ),
{
    let pkt = encode_spec(profile, es)->Ok_0;
    let buf = pkt.update(1, op::GET_EFFECTS);
    let total = description_len(es);
    lemma_body_len(es);
    assert(pkt.len() == REPORT_LEN);
    assert(buf.subrange(7, total) =~= body_bytes(es));
    assert forall|t: int| total <= t < REPORT_LEN implies buf[t] == 0 by {
        assert(buf[t] == pkt[t]);
    }
    assert(es.take(0) =~= Seq::<EffectModel>::empty());
    assert(es.skip(0) =~= es);
    lemma_decode_from(buf, es, 0);
}

/// The zone colours of the first `n` five-byte entries of a lighting frame
/// (from byte 4 on); entries with zone code 0 are empty.
pub open spec fn state_entries(buf: Seq<u8>, n: int) -> Seq<(u16, Rgb)>
    decreases n,
{
    if n <= 0 {
        Seq::empty()
    } else {
        let prev = state_entries(buf, n - 1);
        let c = 4 + 5 * (n - 1);
        let code = le16(buf[c], buf[c + 1]);
        if code != 0 {
            prev.push((code, Rgb { r: buf[c + 2], g: buf[c + 3], b: buf[c + 4] }))
        } else {
            prev
        }
    }
}

/// Number of whole entries in a lighting frame.
pub open spec fn state_entry_count(buf: Seq<u8>) -> int {
    if buf.len() < 4 {
        0
    } else {
        (buf.len() - 4) / 5
    }
}

/// Current colour of every zone, from the report read without a request.
pub fn parse_state(buf: &[u8]) -> (out: Vec<(u16, Rgb)>)
    ensures
        out@ == state_entries(buf@, state_entry_count(buf@)),
{
    let mut out: Vec<(u16, Rgb)> = Vec::new();
    if buf.len() < 4 {
        return out;
    }
    let n = (buf.len() - 4) / 5;
    assert(4 + 5 * n <= buf@.len());
    let mut j: usize = 0;
    while j < n
        invariant
            j <= n,
            4 + 5 * n <= buf@.len() <= usize::MAX,
            n == state_entry_count(buf@),
            buf@.len() >= 4,
            out@ == state_entries(buf@, j as int),
        decreases n - j,
    {
        let c = 4 + 5 * j;
        let code = buf[c] as u16 + 256 * buf[c + 1] as u16;
        if code != 0 {
            out.push((code, Rgb::new(buf[c + 2], buf[c + 3], buf[c + 4])));
        }
        j = j + 1;
    }
    out
}

/// Response to `0xC4`: (rows, zones per row).
pub fn parse_key_count(buf: &[u8]) -> (r: Option<(usize, usize)>)
    requires
        buf@.len() >= 2 && buf@[1] == op::KEY_COUNT ==> buf@.len() >= 7,
    ensures
        r == (if buf@.len() >= 2 && buf@[1] == op::KEY_COUNT {
            Some((buf@[5] as usize, buf@[6] as usize))
        } else {
            None
        }),
{
    if buf.len() >= 2 && buf[1] == op::KEY_COUNT {
        Some((buf[5] as usize, buf[6] as usize))
    } else {
        None
    }
}

/// Zone code of column `x` in a `0xC5` response; 0 past the end of the buffer.
pub open spec fn key_page_entry(buf: Seq<u8>, x: int) -> u16 {
    let i = 7 + 3 * x;
    if i + 2 <= buf.len() {
        le16(buf[i], buf[i + 1])
    } else {
        0
    }
}

/// Response to `0xC5`: the zone codes of one row of the matrix.
pub fn parse_key_page(buf: &[u8], width: usize) -> (out: Vec<u16>)
    requires
        3 * width + 9 <= usize::MAX,
    ensures
        out@ == Seq::new(width as nat, |x: int| key_page_entry(buf@, x)),
{
    let mut out: Vec<u16> = Vec::new();
    let mut x: usize = 0;
    while x < width
        invariant
            x <= width,
            3 * width + 9 <= usize::MAX,
            out@ == Seq::new(x as nat, |t: int| key_page_entry(buf@, t)),
        decreases width - x,
    {
        let i = 6 + 3 * x + 1;
        let k = if i + 2 <= buf.len() {
            buf[i] as u16 + 256 * buf[i + 1] as u16
        } else {
            0
        };
        out.push(k);
        assert(out@ =~= Seq::new((x + 1) as nat, |t: int| key_page_entry(buf@, t)));
        x = x + 1;
    }
    out
}

proof fn lemma_compress_prefix_len(es: Seq<EffectModel>, n: int)
    requires
        0 <= n <= es.len(),
    ensures
        body_len(compress_prefix(es, n)) <= body_len(es.take(n)),
    decreases n,
{
    if n > 0 {
        lemma_compress_prefix_len(es, n - 1);
        lemma_body_len_prefix(es, n - 1);
        let p = compress_prefix(es, n - 1);
        match survivor(es, n - 1) {
            Some(ks) => {
                lemma_survivor_len(es, n - 1);
                let c = with_keys(es[n - 1], ks);
                assert(p.push(c).drop_last() =~= p);
                assert(layer_len(c) <= layer_len(es[n - 1]));
            },
            None => {},
        }
    }
}

/// Resolving overlaps never makes a description longer.
pub proof fn lemma_compress_len(es: Seq<EffectModel>)
    ensures
        description_len(compress_spec(es)) <= description_len(es),
{
    lemma_compress_prefix_len(es, es.len() as int);
    assert(es.take(es.len() as int) =~= es);
}

/// Layers read from a buffer take at most twice the bytes they were read
/// from (a layer on all zones may be read without its zone marker).
pub proof fn lemma_decode_layers_len(buf: Seq<u8>, pos: int, last: u8)
    requires
        0 <= pos,
        decode_layers(buf, pos, last) is Some,
    ensures
        body_len(decode_layers(buf, pos, last)->0) <= 2 * (buf.len() - pos) || decode_layers(
            buf,
            pos,
            last,
        )->0.len() == 0,
        body_len(decode_layers(buf, pos, last)->0) <= 2 * buf.len(),
    decreases buf.len() - pos,
{
    let es = decode_layers(buf, pos, last)->0;
    if es.len() > 0 {
        let nc = buf[pos + 14] as int;
        let kpos = pos + 15 + 3 * nc;
        let nk = buf[kpos] as int;
        let next = kpos + 1 + 2 * nk;
        let rest = decode_layers(buf, next, buf[pos])->0;
        lemma_decode_layers_len(buf, next, buf[pos]);
        let e = es[0];
        assert(es == seq![e] + rest);
        assert(layer_len(e) <= 2 * (next - pos));
        lemma_body_len_front(e, rest);
        if rest.len() == 0 {
            assert(body_len(rest) == 0);
        }
    }
}

/// The length of the layers is that of the first plus that of the rest.
pub proof fn lemma_body_len_front(e: EffectModel, rest: Seq<EffectModel>)
    ensures
        body_len(seq![e] + rest) == layer_len(e) + body_len(rest),
    decreases rest.len(),
{
    if rest.len() == 0 {
        assert(seq![e] + rest =~= seq![e]);
        assert(seq![e].drop_last() =~= Seq::<EffectModel>::empty());
        assert(seq![e].last() == e);
        assert(body_len(Seq::<EffectModel>::empty()) == 0);
    } else {
        lemma_body_len_front(e, rest.drop_last());
        let s = seq![e] + rest;
        assert(s.drop_last() =~= seq![e] + rest.drop_last());
        assert(s.last() == rest.last());
        assert(body_len(s) == body_len(s.drop_last()) + layer_len(s.last()));
        assert(body_len(rest) == body_len(rest.drop_last()) + layer_len(rest.last()));
    }
}

/// A description read from a report is at most twice the report's length.
pub proof fn lemma_decode_len(buf: Seq<u8>)
    requires
        decode_spec(buf) is Some,
    ensures
        description_len((decode_spec(buf)->0).1) <= 7 + 2 * buf.len(),
{
    lemma_decode_layers_len(buf, 7, 1);
}

/// Reading back twice is reading back once.
pub proof fn lemma_read_back_idempotent(es: Seq<EffectModel>)
    ensures
        read_back_all(read_back_all(es)) == read_back_all(es),
{
    assert forall|i: int| 0 <= i < es.len() implies #[trigger] read_back_all(read_back_all(es))[i]
        == read_back_all(es)[i] by {
        let e = es[i];
        if !(e.kind.is_all_zones() || e.keys == seq![ALL_ZONES]) {
        } else {
            assert(Seq::<u16>::empty() != seq![ALL_ZONES]) by {
                assert(seq![ALL_ZONES].len() == 1);
            }
        }
    }
    assert(read_back_all(read_back_all(es)) =~= read_back_all(es));
}

/// What reads back is never longer than what was written.
pub proof fn lemma_read_back_len(es: Seq<EffectModel>)
    ensures
        body_len(read_back_all(es)) <= body_len(es),
        !too_many_items(es) ==> !too_many_items(read_back_all(es)),
    decreases es.len(),
{
    if es.len() > 0 {
        lemma_read_back_len(es.drop_last());
        assert(read_back_all(es).drop_last() =~= read_back_all(es.drop_last()));
        let e = es.last();
        assert(layer_len(read_back(e)) <= layer_len(e));
        if !too_many_items(es) {
            assert forall|i: int| 0 <= i < es.len() implies !(wire_key_count(
                #[trigger] read_back_all(es)[i],
            ) > 255 || read_back_all(es)[i].colors.len() > 255) by {
                assert(!(wire_key_count(es[i]) > 255 || es[i].colors.len() > 255));
            }
        }
    }
}

} // verus!
