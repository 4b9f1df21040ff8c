//! Simulated Spectrum controller for the demo mode: the zone matrix of the
//! Legion Pro 7 16IAX10H, six profiles, and the answers the firmware gives.
//! The lighting frame it reports holds the zone colours last handed to
//! [`SimTransport::set_frame`], one entry per zone, in order of zone code.

use vstd::prelude::*;
use super::device::{
    accepts, connect_made, distinct_codes, flat_rows, layers_of, matrix_run, nonzero, page_codes, query_run,
    read_made, rows_run, since, yields, Exchange, KeyMatrix, Keyboard, Outcome, Result, Transport,
    QUERY_WAITS,
};
use super::protocol::layers::{compress_spec, law_compress_all_zones_empty};
use super::protocol::codec::{
    decode_spec, description_len, encode_spec, key_page_entry, le16, le_hi, le_lo, read_back,
    lemma_encode_decode_roundtrip,
    lemma_read_back_idempotent, lemma_read_back_len, read_back_all,
};
use super::protocol::{
    self as p, models, normalized, op, request_spec, zeros, Direction, Effect, EffectModel,
    EffectType, Packet, Rgb, Rotation, REPORT_ID, REPORT_LEN,
};

verus! {

/// Zone matrix of the keyboard (22 × 9).
pub const MATRIX: [[u16; 22]; 9] = [
    [0, 0, 0x3e9, 0x3f3, 0x3ea, 0x3f4, 0x3eb, 0x3f5, 0x3ec, 0x3f6, 0x3ed, 0x3ee, 0x3ef, 0x3f7, 0x3f0, 0x3f8, 0x3f1, 0x3f9, 0x3f2, 0x3fa, 0, 0],
    [0, 0x01, 0x02, 0x03, 0x04, 0x05, 0x06, 0x07, 0x08, 0x09, 0x0a, 0x0b, 0x0c, 0x0d, 0x0e, 0x0f, 0x10, 0x11, 0x12, 0x13, 0x14, 0],
    [0, 0x16, 0x17, 0x18, 0x19, 0x1a, 0x1b, 0x1c, 0, 0x1d, 0x1e, 0x1f, 0x20, 0x21, 0x22, 0x38, 0x38, 0x26, 0x27, 0x28, 0x29, 0],
    [0, 0x40, 0x42, 0, 0x43, 0x44, 0x45, 0x46, 0x47, 0x48, 0x49, 0x4a, 0x4b, 0, 0x4c, 0x4d, 0x4e, 0x4f, 0x50, 0x51, 0x68, 0],
    [0, 0x55, 0x55, 0x6d, 0x6e, 0x58, 0x59, 0x5a, 0x71, 0, 0x72, 0x5b, 0x5c, 0x5d, 0x5f, 0x77, 0x77, 0x79, 0x7b, 0x7c, 0x68, 0],
    [0x1f5, 0x6a, 0x6a, 0x82, 0x83, 0, 0x6f, 0x70, 0x87, 0x88, 0x73, 0x74, 0x75, 0, 0x76, 0x8d, 0x8d, 0x8e, 0x90, 0x92, 0xa7, 0x1fe],
    [0x1f5, 0x7f, 0x80, 0x96, 0x97, 0x98, 0x98, 0x98, 0x98, 0x98, 0x98, 0x9a, 0x9b, 0, 0, 0x9d, 0, 0xa3, 0xa3, 0xa5, 0xa7, 0x1fe],
    [0x1f6, 0, 0, 0, 0, 0, 0, 0, 0, 0, 0, 0, 0, 0, 0x9c, 0x9f, 0, 0xa1, 0, 0, 0, 0x1fd],
    [0x1f6, 0x1f7, 0x1f7, 0x1f7, 0x1f7, 0x1f8, 0x1f8, 0x1f8, 0x1f9, 0x1f9, 0x1f9, 0x1fa, 0x1fa, 0x1fa, 0x1fb, 0x1fb, 0x1fb, 0x1fc, 0x1fc, 0x1fc, 0x1fc, 0x1fd],
];

/// The zone outside the matrix (the logo on the lid).
pub const LOGO: u16 = 0x5dd;

/// Rows of the matrix.
pub open spec fn matrix_rows() -> Seq<Seq<u16>> {
    Seq::new(9, |y: int| MATRIX@[y]@)
}

/// Every zone of the simulated keyboard: the matrix zones in order, then the logo.
pub open spec fn sim_codes() -> Seq<u16> {
    distinct_codes(flat_rows(matrix_rows())).push(LOGO)
}

proof fn lemma_distinct_codes_len(s: Seq<u16>)
    ensures
        distinct_codes(s).len() <= s.len(),
    decreases s.len(),
{
    if s.len() > 0 {
        lemma_distinct_codes_len(s.drop_last());
    }
}

proof fn lemma_flat_rows_len(rows: Seq<Seq<u16>>, w: int)
    requires
        forall|y: int| 0 <= y < rows.len() ==> (#[trigger] rows[y]).len() == w,
    ensures
        flat_rows(rows).len() == rows.len() * w,
    decreases rows.len(),
{
    if rows.len() > 0 {
        lemma_flat_rows_len(rows.drop_last(), w);
        assert((rows.len() - 1) * w + w == rows.len() * w) by (nonlinear_arith);
    }
}

proof fn lemma_sim_codes_len()
    ensures
        sim_codes().len() <= 199,
{
    lemma_flat_rows_len(matrix_rows(), 22);
    lemma_distinct_codes_len(flat_rows(matrix_rows()));
}

/// The zones of the simulated keyboard.
pub fn all_codes() -> (out: Vec<u16>)
    ensures
        out@ == sim_codes(),
{
    let mut out: Vec<u16> = Vec::new();
    let mut y: usize = 0;
    while y < 9
        invariant
            y <= 9,
            out@ == distinct_codes(flat_rows(matrix_rows().take(y as int))),
        decreases 9 - y,
    {
        let ghost base = flat_rows(matrix_rows().take(y as int));
        assert(matrix_rows().take(y + 1).drop_last() =~= matrix_rows().take(y as int));
        let row: [u16; 22] = MATRIX[y];
        assert(matrix_rows()[y as int] == row@);
        let mut x: usize = 0;
        while x < 22
            invariant
                x <= 22,
                row@.len() == 22,
                out@ == distinct_codes(base + row@.take(x as int)),
            decreases 22 - x,
        {
            let k = row[x];
            assert((base + row@.take(x + 1)).drop_last() =~= base + row@.take(x as int));
            if k != 0 && !contains(&out, k) {
                out.push(k);
            }
            x = x + 1;
        }
        assert(row@.take(22) =~= row@);
        y = y + 1;
    }
    assert(matrix_rows().take(9) =~= matrix_rows());
    out.push(LOGO);
    out
}

fn contains(v: &Vec<u16>, k: u16) -> (r: bool)
    ensures
        r == v@.contains(k),
{
    let mut i: usize = 0;
    while i < v.len()
        invariant
            i <= v@.len(),
            forall|t: int| 0 <= t < i ==> v@[t] != k,
        decreases v@.len() - i,
    {
        if v[i] == k {
            return true;
        }
        i = i + 1;
    }
    false
}

/// A single-colour layer of colour `c` on `keys`.
pub open spec fn solid(c: Rgb, keys: Seq<u16>) -> EffectModel {
    EffectModel { colors: seq![c], ..new_effect(EffectType::Always, keys) }
}

/// What `Effect::new(kind, keys)` gives.
pub open spec fn new_effect(kind: EffectType, keys: Seq<u16>) -> EffectModel {
    normalized(
        EffectModel {
            kind,
            speed: 0,
            direction: Direction::Unset,
            rotation: Rotation::Unset,
            colors: Seq::empty(),
            keys,
        },
    )
}

pub open spec fn wasd() -> Seq<u16> {
    seq![0x43u16, 0x6du16, 0x6eu16, 0x58u16]
}

/// The factory layers of profile `n` (1 to 6).
pub open spec fn factory_profile(n: int) -> Seq<EffectModel> {
    let all = sim_codes();
    if n == 1 {
        seq![solid(Rgb { r: 0xff, g: 0xff, b: 0xff }, all)]
    } else if n == 2 {
        seq![solid(Rgb { r: 0x15, g: 0x8d, b: 0xdd }, all)]
    } else if n == 3 {
        seq![new_effect(EffectType::RainbowWave, all)]
    } else if n == 4 {
        seq![
            new_effect(EffectType::RainbowScrew, all.filter(|k: u16| k >= 0x100)),
            EffectModel { keys: all.filter(|k: u16| k < 0x100), ..solid(Rgb { r: 0x40, g: 0x00, b: 0x80 }, all) },
            EffectModel { keys: wasd(), ..solid(Rgb { r: 0xff, g: 0x30, b: 0x10 }, all) },
        ]
    } else if n == 5 {
        seq![EffectModel { colors: Seq::empty(), ..new_effect(EffectType::ColorPulse, all) }]
    } else {
        seq![new_effect(EffectType::Smooth, all)]
    }
}

fn copy_keys(v: &Vec<u16>) -> (c: Vec<u16>)
    ensures
        c@ == v@,
{
    let c = v.clone();
    assert(c@ =~= v@);
    c
}

fn keys_where(all: &Vec<u16>, low: bool) -> (out: Vec<u16>)
    ensures
        out@ == (if low {
            all@.filter(|k: u16| k < 0x100)
        } else {
            all@.filter(|k: u16| k >= 0x100)
        }),
{
    let mut out: Vec<u16> = Vec::new();
    let mut i: usize = 0;
    while i < all.len()
        invariant
            i <= all@.len(),
            out@ == (if low {
                all@.take(i as int).filter(|k: u16| k < 0x100)
            } else {
                all@.take(i as int).filter(|k: u16| k >= 0x100)
            }),
        decreases all@.len() - i,
    {
        proof {
            reveal_with_fuel(Seq::filter, 1);
            assert(all@.take(i + 1).drop_last() =~= all@.take(i as int));
        }
        let k = all[i];
        if (k < 0x100) == low {
            out.push(k);
        }
        i = i + 1;
    }
    assert(all@.take(i as int) =~= all@);
    out
}

fn solid_effect(c: Rgb, keys: Vec<u16>) -> (e: Effect)
    ensures
        e@ == solid(c, keys@),
{
    let mut e = Effect::new(EffectType::Always, keys);
    let mut colors: Vec<Rgb> = Vec::new();
    colors.push(c);
    e.colors = colors;
    assert(e@.colors =~= seq![c]);
    e
}

impl Effect {
    /// The same layer on the zones `keys`.
    pub fn with_keys(self, keys: Vec<u16>) -> (e: Effect)
        ensures
            e@ == (EffectModel { keys: keys@, ..self@ }),
    {
        let mut e = self;
        e.keys = keys;
        e
    }
}

/// The factory layers of profile `n`.
fn factory(n: u8) -> (out: Vec<Effect>)
    requires
        1 <= n <= 6,
    ensures
        models(out@) == factory_profile(n as int),
{
    let all = all_codes();
    let mut out: Vec<Effect> = Vec::new();
    if n == 1 {
        out.push(solid_effect(Rgb::new(0xff, 0xff, 0xff), all));
    } else if n == 2 {
        out.push(solid_effect(Rgb::new(0x15, 0x8d, 0xdd), all));
    } else if n == 3 {
        out.push(Effect::new(EffectType::RainbowWave, all));
    } else if n == 4 {
        let case = keys_where(&all, false);
        let keys = keys_where(&all, true);
        out.push(Effect::new(EffectType::RainbowScrew, case));
        out.push(solid_effect(Rgb::new(0x40, 0x00, 0x80), copy_keys(&all)).with_keys(keys));
        out.push(solid_effect(Rgb::new(0xff, 0x30, 0x10), all).with_keys(vec![0x43, 0x6d, 0x6e, 0x58]));
    } else if n == 5 {
        let mut e = Effect::new(EffectType::ColorPulse, all);
        e.colors = Vec::new();
        out.push(e);
    } else {
        out.push(Effect::new(EffectType::Smooth, all));
    }
    assert(models(out@) =~= factory_profile(n as int));
    out
}

/// Every zone of the simulator, dark.
pub open spec fn dark_frame_spec() -> Seq<(u16, Rgb)> {
    Seq::new(sim_codes().len(), |t: int| (sim_codes()[t], Rgb { r: 0, g: 0, b: 0 }))
}

/// Every zone of the simulator, dark.
fn dark_frame() -> (dark: Vec<(u16, Rgb)>)
    ensures
        dark@ == dark_frame_spec(),
{
    let all = all_codes();
    let mut dark: Vec<(u16, Rgb)> = Vec::new();
    let mut i: usize = 0;
    while i < all.len()
        invariant
            i <= all@.len(),
            all@ == sim_codes(),
            dark@ == Seq::new(i as nat, |t: int| (sim_codes()[t], Rgb { r: 0, g: 0, b: 0 })),
        decreases all@.len() - i,
    {
        dark.push((all[i], Rgb::new(0, 0, 0)));
        assert(dark@ =~= Seq::new((i + 1) as nat, |t: int| (sim_codes()[t], Rgb { r: 0, g: 0, b: 0 })));
        i = i + 1;
    }
    dark
}

/// Frame `f` has an entry for zone `k`.
pub open spec fn has_code(f: Seq<(u16, Rgb)>, k: u16) -> bool {
    exists|i: int| 0 <= i < f.len() && #[trigger] f[i].0 == k
}

proof fn lemma_place_codes(f: Seq<(u16, Rgb)>, e: (u16, Rgb), k: u16)
    ensures
        has_code(place(f, e), k) <==> (k == e.0 || has_code(f, k)),
{
    lemma_first_at_least(f, e.0, 0);
    let i = first_at_least(f, e.0, 0);
    let g = place(f, e);
    if i < f.len() && f[i].0 == e.0 {
        if has_code(g, k) {
            let j = choose|j: int| 0 <= j < g.len() && #[trigger] g[j].0 == k;
            if j != i {
                assert(f[j].0 == k);
            }
        }
        if k == e.0 {
            assert(g[i].0 == k);
        } else if has_code(f, k) {
            let j = choose|j: int| 0 <= j < f.len() && #[trigger] f[j].0 == k;
            assert(j != i);
            assert(g[j].0 == k);
        }
    } else {
        assert(g.len() == f.len() + 1);
        if has_code(g, k) {
            let j = choose|j: int| 0 <= j < g.len() && #[trigger] g[j].0 == k;
            if j < i {
                assert(g[j] == f[j]);
                assert(f[j].0 == k);
            } else if j > i {
                assert(g[j] == f[j - 1]);
                assert(f[j - 1].0 == k);
            }
        }
        if k == e.0 {
            assert(g[i] == e);
            assert(g[i].0 == k);
        } else if has_code(f, k) {
            let j = choose|j: int| 0 <= j < f.len() && #[trigger] f[j].0 == k;
            if j < i {
                assert(g[j] == f[j]);
                assert(g[j].0 == k);
            } else {
                assert(g[j + 1] == f[j]);
                assert(g[j + 1].0 == k);
            }
        }
    }
}

/// The frame that colours make has an entry for exactly the zones named.
pub proof fn lemma_frame_of_codes(colors: Seq<(u16, Rgb)>, k: u16)
    ensures
        has_code(frame_of(colors), k) <==> has_code(colors, k),
    decreases colors.len(),
{
    if colors.len() > 0 {
        let d = colors.drop_last();
        lemma_frame_of_codes(d, k);
        lemma_place_codes(frame_of(d), colors.last(), k);
        if has_code(d, k) {
            let j = choose|j: int| 0 <= j < d.len() && #[trigger] d[j].0 == k;
            assert(colors[j].0 == k);
        }
        if has_code(colors, k) {
            let j = choose|j: int| 0 <= j < colors.len() && #[trigger] colors[j].0 == k;
            if j < colors.len() - 1 {
                assert(d[j].0 == k);
            }
        }
        if k == colors.last().0 {
            assert(colors[colors.len() - 1].0 == k);
        }
    }
}

/// Gives zone `e.0` colour `e.1` in frame `f`.
fn place_entry(f: &mut Vec<(u16, Rgb)>, e: (u16, Rgb))
    ensures
        final(f)@ == place(old(f)@, e),
{
    proof {
        lemma_first_at_least(f@, e.0, 0);
    }
    let mut i: usize = 0;
    while i < f.len() && f[i].0 < e.0
        invariant
            i <= f@.len(),
            first_at_least(f@, e.0, 0) == first_at_least(f@, e.0, i as int),
        decreases f@.len() - i,
    {
        i = i + 1;
    }
    if i < f.len() && f[i].0 == e.0 {
        f.set(i, e);
    } else {
        f.insert(i, e);
    }
}

/// The frame that the zone colours `colors` make.
fn frame_from(colors: &Vec<(u16, Rgb)>) -> (f: Vec<(u16, Rgb)>)
    ensures
        f@ == frame_of(colors@),
{
    let mut f: Vec<(u16, Rgb)> = Vec::new();
    let mut i: usize = 0;
    while i < colors.len()
        invariant
            i <= colors@.len(),
            f@ == frame_of(colors@.take(i as int)),
        decreases colors@.len() - i,
    {
        assert(colors@.take(i + 1).drop_last() =~= colors@.take(i as int));
        place_entry(&mut f, colors[i]);
        i = i + 1;
    }
    assert(colors@.take(i as int) =~= colors@);
    f
}

/// The state of the simulated controller.
pub struct SimModel {
    pub brightness: u8,
    pub profile: u8,
    pub logo: bool,
    pub profiles: Seq<Seq<EffectModel>>,
    /// Answer to the last request; `None`: a read returns a lighting frame.
    pub pending: Option<Seq<u8>>,
    /// Zone colours of the lighting frame.
    pub frame: Seq<(u16, Rgb)>,
}

/// Index of the first entry of `f`, from `i` on, whose zone code is `k` or
/// more; the length of `f` when there is none.
pub open spec fn first_at_least(f: Seq<(u16, Rgb)>, k: u16, i: int) -> int
    decreases f.len() - i,
{
    if i < 0 || i >= f.len() {
        f.len() as int
    } else if f[i].0 >= k {
        i
    } else {
        first_at_least(f, k, i + 1)
    }
}

/// Frame `f` with zone `e.0` given colour `e.1`: its entry replaced, or a
/// new entry at its place in code order.
pub open spec fn place(f: Seq<(u16, Rgb)>, e: (u16, Rgb)) -> Seq<(u16, Rgb)> {
    let i = first_at_least(f, e.0, 0);
    if i < f.len() && f[i].0 == e.0 {
        f.update(i, e)
    } else {
        f.insert(i, e)
    }
}

/// The frame that the zone colours `colors` make: an entry for each zone
/// named, in order of zone code, with the colour given to it last.
pub open spec fn frame_of(colors: Seq<(u16, Rgb)>) -> Seq<(u16, Rgb)>
    decreases colors.len(),
{
    if colors.len() == 0 {
        Seq::empty()
    } else {
        place(frame_of(colors.drop_last()), colors.last())
    }
}

/// The entries of `f` come in strictly increasing order of zone code.
pub open spec fn code_order(f: Seq<(u16, Rgb)>) -> bool {
    forall|i: int, j: int| 0 <= i < j < f.len() ==> #[trigger] f[i].0 < #[trigger] f[j].0
}

proof fn lemma_first_at_least(f: Seq<(u16, Rgb)>, k: u16, i: int)
    requires
        0 <= i <= f.len(),
    ensures
        i <= first_at_least(f, k, i) <= f.len(),
        forall|t: int| i <= t < first_at_least(f, k, i) ==> f[t].0 < k,
        first_at_least(f, k, i) < f.len() ==> f[first_at_least(f, k, i)].0 >= k,
    decreases f.len() - i,
{
    if i < f.len() && f[i].0 < k {
        lemma_first_at_least(f, k, i + 1);
    }
}

proof fn lemma_place_in_order(f: Seq<(u16, Rgb)>, e: (u16, Rgb))
    requires
        code_order(f),
    ensures
        code_order(place(f, e)),
{
    lemma_first_at_least(f, e.0, 0);
    let i = first_at_least(f, e.0, 0);
    let g = place(f, e);
    if !(i < f.len() && f[i].0 == e.0) {
        assert forall|a: int, b: int| 0 <= a < b < g.len() implies #[trigger] g[a].0 < #[trigger] g[b].0 by {
            assert(g[a] == if a < i { f[a] } else if a == i { e } else { f[a - 1] });
            assert(g[b] == if b < i { f[b] } else if b == i { e } else { f[b - 1] });
            if a < i && b > i {
                assert(f[a].0 < e.0);
                assert(f[i].0 > e.0);
                if b - 1 > i {
                    assert(f[i].0 < f[b - 1].0);
                }
            }
            if a == i && b > i + 1 {
                assert(f[i].0 < f[b - 1].0);
            }
        }
    }
}

/// The frame that colours make lists the zones in order of code.
pub proof fn lemma_frame_of_in_order(colors: Seq<(u16, Rgb)>)
    ensures
        code_order(frame_of(colors)),
    decreases colors.len(),
{
    if colors.len() > 0 {
        lemma_frame_of_in_order(colors.drop_last());
        lemma_place_in_order(frame_of(colors.drop_last()), colors.last());
    }
}

/// A frame in code order stays in code order with entries left out.
proof fn lemma_filter_in_order(f: Seq<(u16, Rgb)>, pred: spec_fn((u16, Rgb)) -> bool)
    requires
        code_order(f),
    ensures
        code_order(f.filter(pred)),
    decreases f.len(),
{
    reveal_with_fuel(Seq::filter, 1);
    if f.len() > 0 {
        let d = f.drop_last();
        assert(code_order(d));
        lemma_filter_in_order(d, pred);
        let fd = d.filter(pred);
        if pred(f.last()) {
            assert forall|i: int| 0 <= i < fd.len() implies fd[i].0 < f.last().0 by {
                assert(fd.contains(fd[i]));
                d.lemma_filter_contains_rev(pred, fd[i]);
                let t = choose|t: int| 0 <= t < d.len() && d[t] == fd[i];
                assert(f[t].0 < f[f.len() - 1].0);
            }
            let g = fd.push(f.last());
            assert forall|a: int, b: int| 0 <= a < b < g.len() implies #[trigger] g[a].0 < #[trigger] g[b].0 by {
                if b == fd.len() {
                    assert(g[a] == fd[a]);
                } else {
                    assert(g[a] == fd[a] && g[b] == fd[b]);
                }
            }
        }
    }
}

/// Largest description a stored profile has.
pub open spec fn stored_len_bound() -> int {
    7 + 2 * REPORT_LEN
}

pub open spec fn model_wf(m: SimModel) -> bool {
    &&& 1 <= m.profile <= 6
    &&& m.brightness <= p::MAX_BRIGHTNESS
    &&& m.profiles.len() == 6
    &&& forall|i: int| 0 <= i < 6 ==> description_len(#[trigger] m.profiles[i]) <= stored_len_bound()
    &&& m.pending matches Some(r) ==> r.len() == REPORT_LEN
    &&& code_order(m.frame)
}

/// `v` limited to `lo..=hi`.
pub open spec fn clamp(v: u8, lo: u8, hi: u8) -> u8 {
    if v < lo {
        lo
    } else if v > hi {
        hi
    } else {
        v
    }
}

/// The common start of an answer to request `req`.
pub open spec fn answer_base(req: Seq<u8>) -> Seq<u8> {
    seq![REPORT_ID, req[1], 1u8] + zeros(REPORT_LEN - 3)
}

/// The row that a `0xC5` request asks for.
pub open spec fn page_row(req: Seq<u8>) -> Seq<u16> {
    if req[4] == 8 {
        seq![LOGO] + Seq::new(21, |i: int| 0u16)
    } else if req[5] < 9 {
        matrix_rows()[req[5] as int]
    } else {
        Seq::empty()
    }
}

/// The answer to `0xC5`: for each column `x`, the byte `x` and the zone code.
pub open spec fn page_answer(req: Seq<u8>) -> Seq<u8> {
    let base = answer_base(req);
    let row = page_row(req);
    Seq::new(
        REPORT_LEN as nat,
        |i: int|
            if i == 4 {
                req[4]
            } else if i == 5 {
                req[5]
            } else if 6 <= i < 6 + 3 * row.len() {
                let x = (i - 6) / 3;
                let t = (i - 6) % 3;
                if t == 0 {
                    x as u8
                } else if t == 1 {
                    le_lo(row[x])
                } else {
                    le_hi(row[x])
                }
            } else {
                base[i]
            },
    )
}

/// What the controller answers to request `req`.
pub open spec fn respond_spec(m: SimModel, req: Seq<u8>) -> Seq<u8> {
    let base = answer_base(req);
    let o = req[1];
    if o == op::KEY_COUNT {
        base.update(2, 3).update(4, 7).update(5, 9).update(6, 22)
    } else if o == op::KEY_PAGE {
        page_answer(req)
    } else if o == op::GET_BRIGHTNESS {
        base.update(4, m.brightness)
    } else if o == op::GET_PROFILE {
        base.update(4, m.profile)
    } else if o == op::GET_LOGO {
        base.update(4, if m.logo { 1u8 } else { 0u8 })
    } else if o == op::GET_EFFECTS {
        let n = clamp(req[4], 1, 6);
        let body = match encode_spec(n, m.profiles[n - 1]) {
            Ok(pkt) => pkt,
            Err(_) => base,
        };
        body.update(1, op::GET_EFFECTS).update(2, 0xC0)
    } else {
        base
    }
}

/// The controller after it takes packet `req`.
pub open spec fn sim_step(m: SimModel, req: Seq<u8>) -> SimModel {
    let o = req[1];
    if o == op::SET_BRIGHTNESS {
        SimModel {
            brightness: if req[4] > p::MAX_BRIGHTNESS { p::MAX_BRIGHTNESS } else { req[4] },
            pending: None,
            ..m
        }
    } else if o == op::SET_PROFILE {
        SimModel { profile: clamp(req[4], 1, 6), pending: None, ..m }
    } else if o == op::SET_LOGO {
        SimModel { logo: req[4] == 1, pending: None, ..m }
    } else if o == op::PROFILE_DEFAULT {
        let n = clamp(req[4], 1, 6);
        SimModel { profiles: m.profiles.update(n - 1, factory_profile(n as int)), pending: None, ..m }
    } else if o == op::SET_EFFECTS {
        match decode_spec(req.update(1, op::GET_EFFECTS)) {
            Some((n, es)) => SimModel {
                profiles: m.profiles.update(clamp(n, 1, 6) - 1, es),
                pending: None,
                ..m
            },
            None => SimModel { pending: None, ..m },
        }
    } else {
        SimModel { pending: Some(respond_spec(m, req)), ..m }
    }
}

/// The zone colours a frame shows: the logo only while it is lit.
pub open spec fn visible(m: SimModel) -> Seq<(u16, Rgb)> {
    m.frame.filter(|e: (u16, Rgb)| m.logo || e.0 != LOGO)
}

/// Number of frame entries a report holds.
pub open spec fn frame_capacity() -> int {
    (REPORT_LEN - 4) / 5
}

pub open spec fn entry_byte(e: (u16, Rgb), t: int) -> u8 {
    if t == 0 {
        le_lo(e.0)
    } else if t == 1 {
        le_hi(e.0)
    } else if t == 2 {
        e.1.r
    } else if t == 3 {
        e.1.g
    } else {
        e.1.b
    }
}

/// The lighting frame report: the visible zone colours, in order of zone
/// code, as many as fit.
pub open spec fn frame_report(m: SimModel) -> Seq<u8> {
    let v = visible(m);
    let n = if v.len() < frame_capacity() { v.len() as int } else { frame_capacity() };
    Seq::new(
        REPORT_LEN as nat,
        |i: int|
            if i == 0 {
                REPORT_ID
            } else if i == 1 {
                p::STATE_REPORT
            } else if 4 <= i < 4 + 5 * n {
                entry_byte(v[(i - 4) / 5], (i - 4) % 5)
            } else {
                0u8
            },
    )
}

/// What a read returns, and the controller after it.
pub open spec fn sim_read(m: SimModel) -> (Seq<u8>, SimModel) {
    match m.pending {
        Some(r) => (r, SimModel { pending: None, ..m }),
        None => (frame_report(m), m),
    }
}

/// The controller state apart from the lighting frame.
pub open spec fn state_core(m: SimModel) -> SimModel {
    SimModel { frame: Seq::empty(), ..m }
}

/// The simulated controller as it starts (apart from the lighting frame).
pub open spec fn start_model() -> SimModel {
    SimModel {
        brightness: 5,
        profile: 3,
        logo: true,
        profiles: Seq::new(6, |i: int| factory_profile(i + 1)),
        pending: None,
        frame: Seq::empty(),
    }
}

/// The controller after exchange `x`, when `x` is one the simulator makes
/// from state `m`: a write always succeeds, a read gives the waiting answer
/// or else a lighting frame. `None` for any other exchange.
pub open spec fn sim_exchange(m: SimModel, x: Exchange) -> Option<SimModel> {
    match x {
        Exchange::Sent(req, Ok(_)) => Some(sim_step(m, req)),
        Exchange::Read(Ok(r)) => match m.pending {
            Some(a) => if r == a {
                Some(SimModel { pending: None, ..m })
            } else {
                None
            },
            None => if r.len() == REPORT_LEN && r[1] == p::STATE_REPORT {
                Some(m)
            } else {
                None
            },
        },
        Exchange::Paused(_) => Some(m),
        _ => None,
    }
}

/// The controller after the exchanges `xs` from state `m`, when the
/// simulator makes them.
pub open spec fn sim_replay(m: SimModel, xs: Seq<Exchange>) -> Option<SimModel>
    decreases xs.len(),
{
    if xs.len() == 0 {
        Some(m)
    } else {
        match sim_replay(m, xs.drop_last()) {
            Some(m1) => sim_exchange(m1, xs.last()),
            None => None,
        }
    }
}

/// Every part of log `xs` from its start is what the simulator makes from
/// state `o`, through states with six profiles.
pub open spec fn sim_history(o: SimModel, xs: Seq<Exchange>) -> bool {
    forall|i: int|
        0 <= i <= xs.len() ==> (#[trigger] sim_replay(o, xs.take(i)) matches Some(m) && m.profiles.len()
            == 6)
}

/// The simulated controller's state.
struct Controller {
    brightness: u8,
    profile: u8,
    logo: bool,
    profiles: [Vec<Effect>; 6],
    pending: Option<Packet>,
    frame: Vec<(u16, Rgb)>,
}

impl Controller {
    closed spec fn model(&self) -> SimModel {
        SimModel {
            brightness: self.brightness,
            profile: self.profile,
            logo: self.logo,
            profiles: Seq::new(6, |i: int| models(self.profiles[i]@)),
            pending: match self.pending {
                Some(r) => Some(r@),
                None => None,
            },
            frame: self.frame@,
        }
    }

    #[verifier::type_invariant]
    closed spec fn wf(&self) -> bool {
        model_wf(self.model())
    }
}

proof fn lemma_one_layer_len(e: EffectModel)
    ensures
        description_len(seq![e]) == 7 + p::layer_len(e),
{
    super::protocol::codec::lemma_body_len_front(e, Seq::empty());
    assert(seq![e] + Seq::<EffectModel>::empty() =~= seq![e]);
}

proof fn lemma_factory_len(n: int)
    requires
        1 <= n <= 6,
    ensures
        description_len(factory_profile(n)) <= stored_len_bound(),
{
    lemma_sim_codes_len();
    let all = sim_codes();
    all.filter_lemma(|k: u16| k >= 0x100);
    all.filter_lemma(|k: u16| k < 0x100);
    let f = factory_profile(n);
    if n == 4 {
        super::protocol::codec::lemma_body_len_front(f[0], f.drop_first());
        super::protocol::codec::lemma_body_len_front(f[1], f.drop_first().drop_first());
        super::protocol::codec::lemma_body_len_front(f[2], Seq::empty());
        assert(f =~= seq![f[0]] + f.drop_first());
        assert(f.drop_first() =~= seq![f[1]] + f.drop_first().drop_first());
        assert(f.drop_first().drop_first() =~= seq![f[2]] + Seq::<EffectModel>::empty());
    } else {
        lemma_one_layer_len(f[0]);
        assert(f =~= seq![f[0]]);
    }
}

impl Controller {
    /// The simulated controller as it starts: brightness 5, profile 3, logo
    /// lit, factory layers in every profile, and a frame with every zone dark.
    fn new() -> (s: Self)
        ensures
            s.model().brightness == 5,
            s.model().profile == 3,
            s.model().logo,
            s.model().profiles == Seq::new(6, |i: int| factory_profile(i + 1)),
            s.model().pending is None,
            s.model().frame == frame_of(dark_frame_spec()),
    {
        proof {
            lemma_factory_len(1);
            lemma_factory_len(2);
            lemma_factory_len(3);
            lemma_factory_len(4);
            lemma_factory_len(5);
            lemma_factory_len(6);
        }
        let dark = dark_frame();
        let frame = frame_from(&dark);
        proof {
            lemma_frame_of_in_order(dark@);
        }
        let s = Controller {
            brightness: 5,
            profile: 3,
            logo: true,
            profiles: [factory(1), factory(2), factory(3), factory(4), factory(5), factory(6)],
            pending: None,
            frame,
        };
        assert(s.model().profiles =~= Seq::new(6, |i: int| factory_profile(i + 1)));
        s
    }

    /// A controller with nothing stored, holding a place for a moment.
    fn idle() -> (c: Self) {
        let c = Controller {
            brightness: 0,
            profile: 1,
            logo: false,
            profiles: [Vec::new(), Vec::new(), Vec::new(), Vec::new(), Vec::new(), Vec::new()],
            pending: None,
            frame: Vec::new(),
        };
        proof {
            assert forall|i: int| 0 <= i < 6 implies description_len(#[trigger] c.model().profiles[i])
                <= stored_len_bound() by {
                assert(c.model().profiles[i] =~= Seq::<EffectModel>::empty());
            }
        }
        c
    }

    /// The layers of the active profile.
    fn active_effects(&self) -> (es: &Vec<Effect>)
        ensures
            models(es@) == self.model().profiles[self.model().profile - 1],
    {
        proof {
            use_type_invariant(self);
        }
        &self.profiles[(self.profile - 1) as usize]
    }

    /// Current brightness, 0 to 9.
    fn brightness(&self) -> (b: u8)
        ensures
            b == self.model().brightness,
    {
        self.brightness
    }

    /// Whether the logo is lit.
    fn logo(&self) -> (on: bool)
        ensures
            on == self.model().logo,
    {
        self.logo
    }

    /// Whether an answer waits to be read (the next read is then no frame).
    fn has_pending(&self) -> (r: bool)
        ensures
            r == self.model().pending is Some,
    {
        self.pending.is_some()
    }

    /// Sets the zone colours that lighting frames report: an entry for every
    /// zone of the simulator and every zone named, in order of zone code,
    /// each with the colour given to it last (dark when none is given).
    fn set_frame(&mut self, colors: Vec<(u16, Rgb)>)
        ensures
            final(self).model() == (SimModel {
                frame: frame_of(dark_frame_spec() + colors@),
                ..old(self).model()
            }),
    {
        proof {
            use_type_invariant(&*self);
        }
        let mut all = dark_frame();
        let mut more = colors;
        all.append(&mut more);
        proof {
            lemma_frame_of_in_order(all@);
        }
        self.frame = frame_from(&all);
        assert(self.model().profiles =~= old(self).model().profiles);
    }

    fn respond(&self, req: &Packet) -> (r: Packet)
        ensures
            r@ == respond_spec(self.model(), req@),
    {
        proof {
            use_type_invariant(self);
        }
        let mut r = [0u8; 960];
        r[0] = REPORT_ID;
        r[1] = req[1];
        r[2] = 1;
        assert(r@ =~= answer_base(req@));
        let o = req[1];
        if o == op::KEY_COUNT {
            r[2] = 3;
            r[4] = 7;
            r[5] = 9;
            r[6] = 22;
            assert(r@ =~= respond_spec(self.model(), req@));
        } else if o == op::KEY_PAGE {
            r[4] = req[4];
            r[5] = req[5];
            let mut row: [u16; 22] = [0u16; 22];
            let mut len: usize = 0;
            if req[4] == 8 {
                row[0] = LOGO;
                len = 22;
                assert(row@ =~= page_row(req@));
            } else if req[5] < 9 {
                row = MATRIX[req[5] as usize];
                len = 22;
                assert(row@ =~= page_row(req@));
            } else {
                assert(page_row(req@).len() == 0);
            }
            let ghost rowv = page_row(req@);
            let mut x: usize = 0;
            while x < len
                invariant
                    x <= len <= 22,
                    rowv == page_row(req@),
                    len == rowv.len(),
                    len > 0 ==> row@ == rowv,
                    r@.len() == REPORT_LEN,
                    r@[4] == req@[4],
                    r@[5] == req@[5],
                    forall|i: int| 0 <= i < REPORT_LEN && !(4 <= i < 6 + 3 * x) ==> r@[i] == answer_base(req@)[i],
                    forall|i: int| 6 <= i < 6 + 3 * x ==> r@[i] == page_answer(req@)[i],
                decreases len - x,
            {
                let k = row[x];
                r[6 + 3 * x] = x as u8;
                r[7 + 3 * x] = (k % 256) as u8;
                r[8 + 3 * x] = (k / 256) as u8;
                assert(rowv[x as int] == k);
                proof {
                    let i0 = 6 + 3 * x;
                    assert((i0 - 6) / 3 == x && (i0 - 6) % 3 == 0);
                    assert((i0 + 1 - 6) / 3 == x && (i0 + 1 - 6) % 3 == 1);
                    assert((i0 + 2 - 6) / 3 == x && (i0 + 2 - 6) % 3 == 2);
                    assert(page_answer(req@)[i0] == x as u8);
                    assert(page_answer(req@)[i0 + 1] == le_lo(k));
                    assert(page_answer(req@)[i0 + 2] == le_hi(k));
                }
                x = x + 1;
            }
            assert(r@ =~= page_answer(req@));
        } else if o == op::GET_BRIGHTNESS {
            r[4] = self.brightness;
            assert(r@ =~= respond_spec(self.model(), req@));
        } else if o == op::GET_PROFILE {
            r[4] = self.profile;
            assert(r@ =~= respond_spec(self.model(), req@));
        } else if o == op::GET_LOGO {
            r[4] = if self.logo { 1 } else { 0 };
            assert(r@ =~= respond_spec(self.model(), req@));
        } else if o == op::GET_EFFECTS {
            let n: u8 = if req[4] < 1 { 1 } else if req[4] > 6 { 6 } else { req[4] };
            let ghost stored = self.model().profiles[n - 1];
            assert(models(self.profiles[(n - 1) as int]@) == stored);
            let mut pkt = match p::encode_effects(n, self.profiles[(n - 1) as usize].as_slice()) {
                Ok(pkt) => pkt,
                Err(_) => r,
            };
            pkt[1] = op::GET_EFFECTS;
            pkt[2] = 0xC0;
            assert(pkt@ =~= respond_spec(self.model(), req@));
            return pkt;
        } else {
            assert(r@ =~= respond_spec(self.model(), req@));
        }
        r
    }

    fn frame_packet(&self) -> (r: Packet)
        ensures
            r@ == frame_report(self.model()),
    {
        let mut r = [0u8; 960];
        r[0] = REPORT_ID;
        r[1] = p::STATE_REPORT;
        let ghost m = self.model();
        let ghost pred = |e: (u16, Rgb)| m.logo || e.0 != LOGO;
        let mut c: usize = 0;
        let mut i: usize = 0;
        while i < self.frame.len() && c < 191
            invariant
                i <= self.frame@.len(),
                m == self.model(),
                pred == (|e: (u16, Rgb)| m.logo || e.0 != LOGO),
                c <= 191,
                c == m.frame.take(i as int).filter(pred).len(),
                r@.len() == REPORT_LEN,
                r@[0] == REPORT_ID,
                r@[1] == p::STATE_REPORT,
                forall|j: int| 4 + 5 * c <= j < REPORT_LEN ==> r@[j] == 0,
                r@[2] == 0 && r@[3] == 0,
                forall|j: int| 4 <= j < 4 + 5 * c ==> r@[j] == entry_byte(
                    m.frame.take(i as int).filter(pred)[(j - 4) / 5],
                    (j - 4) % 5,
                ),
            decreases self.frame@.len() - i,
        {
            let (k, col) = self.frame[i];
            proof {
                reveal_with_fuel(Seq::filter, 1);
                assert(m.frame.take(i + 1).drop_last() =~= m.frame.take(i as int));
            }
            if self.logo || k != LOGO {
                let base = 4 + 5 * c;
                r[base] = (k % 256) as u8;
                r[base + 1] = (k / 256) as u8;
                r[base + 2] = col.r;
                r[base + 3] = col.g;
                r[base + 4] = col.b;
                c = c + 1;
            }
            i = i + 1;
        }
        proof {
            lemma_filter_prefix(m.frame, pred, i as int);
            if i < m.frame.len() {
                assert(c == 191);
            } else {
                assert(m.frame.take(i as int) =~= m.frame);
            }
        }
        assert(r@ =~= frame_report(m));
        r
    }
}

/// Filtering a prefix gives a prefix of the filtered sequence.
proof fn lemma_filter_prefix<A>(s: Seq<A>, pred: spec_fn(A) -> bool, i: int)
    requires
        0 <= i <= s.len(),
    ensures
        s.take(i).filter(pred).len() <= s.filter(pred).len(),
        forall|j: int|
            0 <= j < s.take(i).filter(pred).len() ==> #[trigger] s.take(i).filter(pred)[j] == s.filter(
                pred,
            )[j],
    decreases s.len() - i,
{
    reveal_with_fuel(Seq::filter, 1);
    if i < s.len() {
        lemma_filter_prefix(s, pred, i + 1);
        assert(s.take(i + 1).drop_last() =~= s.take(i));
        let a = s.take(i).filter(pred);
        let b = s.take(i + 1).filter(pred);
        assert(s.take(i + 1).last() == s[i]);
        assert(b == (if pred(s[i]) { a.push(s[i]) } else { a }));
        assert forall|j: int| 0 <= j < a.len() implies #[trigger] a[j] == s.filter(pred)[j] by {
            assert(a[j] == b[j]);
        }
    } else {
        assert(s.take(i) =~= s);
    }
}

/// Simulated controller.
pub struct SimTransport {
    c: Controller,
    /// The state the exchanges are counted from, and the exchanges made.
    hist: Ghost<(SimModel, Seq<Exchange>)>,
}

impl SimTransport {
    /// The state of the simulated controller.
    pub closed spec fn model(&self) -> SimModel {
        self.c.model()
    }

    #[verifier::type_invariant]
    closed spec fn wf(&self) -> bool {
        &&& sim_history(self.hist@.0, self.hist@.1)
        &&& sim_replay(self.hist@.0, self.hist@.1) == Some(state_core(self.model()))
    }

    /// The state (apart from the frame) that the exchanges so far were made
    /// from.
    pub closed spec fn origin(&self) -> SimModel {
        if sim_history(self.hist@.0, self.hist@.1) {
            self.hist@.0
        } else {
            start_model()
        }
    }

    /// The simulator makes every exchange of its log.
    pub proof fn lemma_history(t: SimTransport)
        ensures
            sim_history(t.origin(), t.exchanges()),
    {
        if !sim_history(t.hist@.0, t.hist@.1) {
            assert(Seq::<Exchange>::empty().take(0) =~= Seq::<Exchange>::empty());
        }
    }

    /// The simulated controller as it starts: brightness 5, profile 3, logo
    /// lit, factory layers in every profile, and a frame with every zone dark.
    pub fn new() -> (s: Self)
        ensures
            s.model().brightness == 5,
            s.model().profile == 3,
            s.model().logo,
            s.model().profiles == Seq::new(6, |i: int| factory_profile(i + 1)),
            s.model().pending is None,
            s.model().frame == frame_of(dark_frame_spec()),
            s.exchanges().len() == 0,
            s.keeps_log(),
    {
        let c = Controller::new();
        assert(state_core(c.model()).profiles =~= start_model().profiles);
        Self::around(c)
    }

    /// The simulator on controller `c`, with no exchanges yet.
    fn around(c: Controller) -> (s: Self)
        ensures
            s.model() == c.model(),
            s.exchanges().len() == 0,
            s.hist@.0 == state_core(c.model()),
    {
        proof {
            use_type_invariant(&c);
            assert(Seq::<Exchange>::empty().take(0) =~= Seq::<Exchange>::empty());
        }
        SimTransport { c, hist: Ghost((state_core(c.model()), Seq::empty())) }
    }

    /// The layers of the active profile.
    pub fn active_effects(&self) -> (es: &Vec<Effect>)
        ensures
            models(es@) == self.model().profiles[self.model().profile - 1],
    {
        self.c.active_effects()
    }

    /// Current brightness, 0 to 9.
    pub fn brightness(&self) -> (b: u8)
        ensures
            b == self.model().brightness,
    {
        self.c.brightness()
    }

    /// Whether the logo is lit.
    pub fn logo(&self) -> (on: bool)
        ensures
            on == self.model().logo,
    {
        self.c.logo()
    }

    /// Whether an answer waits to be read (the next read is then no frame).
    pub fn has_pending(&self) -> (r: bool)
        ensures
            r == self.model().pending is Some,
    {
        self.c.has_pending()
    }

    /// Takes the simulator apart: its controller and its history; `self` is
    /// left an idle one meanwhile.
    fn open(&mut self) -> (parts: (Controller, Ghost<(SimModel, Seq<Exchange>)>))
        ensures
            parts.0.model() == old(self).model(),
            sim_history(parts.1@.0, parts.1@.1),
            sim_replay(parts.1@.0, parts.1@.1) == Some(state_core(parts.0.model())),
            parts.1@.1 == old(self).exchanges(),
            parts.1@.0 == old(self).hist@.0,
    {
        proof {
            use_type_invariant(&*self);
        }
        let mut cur = Self::around(Controller::idle());
        std::mem::swap(&mut cur, self);
        proof {
            use_type_invariant(&cur);
        }
        let SimTransport { c, hist } = cur;
        (c, hist)
    }

    /// Puts the simulator together again.
    fn close(&mut self, c: Controller, hist: Ghost<(SimModel, Seq<Exchange>)>)
        requires
            sim_history(hist@.0, hist@.1),
            sim_replay(hist@.0, hist@.1) == Some(state_core(c.model())),
        ensures
            final(self).model() == c.model(),
            final(self).exchanges() == hist@.1,
            final(self).hist@ == hist@,
    {
        let mut next = SimTransport { c, hist };
        std::mem::swap(&mut next, self);
    }

    /// Sets the zone colours that lighting frames report: an entry for every
    /// zone of the simulator and every zone named, in order of zone code,
    /// each with the colour given to it last (dark when none is given).
    pub fn set_frame(&mut self, colors: Vec<(u16, Rgb)>)
        ensures
            final(self).model() == (SimModel {
                frame: frame_of(dark_frame_spec() + colors@),
                ..old(self).model()
            }),
            final(self).exchanges() == old(self).exchanges(),
    {
        let (mut c, hist) = self.open();
        c.set_frame(colors);
        self.close(c, hist);
    }
}

/// The log after exchange `x`, which takes the controller from `m0` to `m1`.
proof fn lemma_log_step(o: SimModel, log: Seq<Exchange>, x: Exchange, m0: SimModel, m1: SimModel)
    requires
        sim_history(o, log),
        sim_replay(o, log) == Some(state_core(m0)),
        sim_exchange(state_core(m0), x) == Some(state_core(m1)),
        m1.profiles.len() == 6,
    ensures
        sim_history(o, log.push(x)),
        sim_replay(o, log.push(x)) == Some(state_core(m1)),
{
    let l = log.push(x);
    assert(l.drop_last() =~= log);
    assert forall|i: int| 0 <= i <= l.len() implies (#[trigger] sim_replay(o, l.take(i)) matches Some(m)
        && m.profiles.len() == 6) by {
        if i <= log.len() {
            assert(l.take(i) =~= log.take(i));
        } else {
            assert(l.take(i) =~= l);
        }
    }
}

proof fn lemma_frame_report_shape(m: SimModel)
    ensures
        frame_report(m).len() == REPORT_LEN,
        frame_report(m)[1] == p::STATE_REPORT,
{
}

impl Transport for SimTransport {
    /// The simulator keeps its log from the state it starts in.
    closed spec fn keeps_log(&self) -> bool {
        self.hist@.0 == start_model()
    }

    closed spec fn exchanges(&self) -> Seq<Exchange> {
        if sim_history(self.hist@.0, self.hist@.1) {
            self.hist@.1
        } else {
            Seq::empty()
        }
    }

    fn set_feature(&mut self, req: &Packet) -> (r: Result<()>)
        ensures
            r is Ok,
            final(self).model() == sim_step(old(self).model(), req@),
    {
        let (mut c, hist) = self.open();
        let ghost m0 = c.model();
        c.take(req);
        let ghost x = Exchange::Sent(req@, Ok(()));
        proof {
            use_type_invariant(&c);
            assert(sim_step(state_core(m0), req@) == state_core(sim_step(m0, req@)));
            lemma_log_step(hist@.0, hist@.1, x, m0, c.model());
        }
        self.close(c, Ghost((hist@.0, hist@.1.push(x))));
        Ok(())
    }

    fn get_feature(&mut self) -> (r: Result<Packet>)
        ensures
            r matches Ok(pkt) && pkt@ == sim_read(old(self).model()).0,
            final(self).model() == sim_read(old(self).model()).1,
    {
        let (mut c, hist) = self.open();
        let ghost m0 = c.model();
        let r = c.read();
        let ghost x = Exchange::Read(Ok(r@));
        proof {
            use_type_invariant(&c);
            lemma_frame_report_shape(m0);
            lemma_log_step(hist@.0, hist@.1, x, m0, c.model());
        }
        self.close(c, Ghost((hist@.0, hist@.1.push(x))));
        Ok(r)
    }

    fn name(&self) -> (s: String)
        ensures
            s@ == "симулятор Spectrum"@,
    {
        String::from_str("симулятор Spectrum")
    }

    fn pause(&mut self, ms: u64)
        ensures
            final(self).model() == old(self).model(),
    {
        proof {
            use_type_invariant(&*self);
            lemma_log_step(self.hist@.0, self.hist@.1, Exchange::Paused(ms), self.model(), self.model());
        }
        self.hist = Ghost((self.hist@.0, self.hist@.1.push(Exchange::Paused(ms))));
    }
}

impl Controller {
    /// Takes packet `req`: the controller steps.
    fn take(&mut self, req: &Packet)
        ensures
            final(self).model() == sim_step(old(self).model(), req@),
    {
        proof {
            use_type_invariant(&*self);
        }
        let ghost m = self.model();
        let o = req[1];
        if o == op::SET_BRIGHTNESS {
            self.brightness = if req[4] > p::MAX_BRIGHTNESS { p::MAX_BRIGHTNESS } else { req[4] };
        } else if o == op::SET_PROFILE {
            self.profile = if req[4] < 1 { 1 } else if req[4] > 6 { 6 } else { req[4] };
        } else if o == op::SET_LOGO {
            self.logo = req[4] == 1;
        } else if o == op::PROFILE_DEFAULT {
            let n: u8 = if req[4] < 1 { 1 } else if req[4] > 6 { 6 } else { req[4] };
            proof {
                lemma_factory_len(n as int);
            }
            let v = factory(n);
            assert forall|i: int| 0 <= i < 6 implies description_len(
                #[trigger] models(self.profiles[i]@),
            ) <= stored_len_bound() by {
                assert(m.profiles[i] == models(self.profiles[i]@));
            }
            self.profiles[(n - 1) as usize] = v;
        } else if o == op::SET_EFFECTS {
            let mut resp = *req;
            resp[1] = op::GET_EFFECTS;
            match p::decode_effects(&resp) {
                Some((n, e)) => {
                    proof {
                        super::protocol::codec::lemma_decode_len(resp@);
                    }
                    let k: u8 = if n < 1 { 1 } else if n > 6 { 6 } else { n };
                    assert forall|i: int| 0 <= i < 6 implies description_len(
                        #[trigger] models(self.profiles[i]@),
                    ) <= stored_len_bound() by {
                        assert(m.profiles[i] == models(self.profiles[i]@));
                    }
                    self.profiles[(k - 1) as usize] = e;
                },
                None => {},
            }
            assert(resp@ =~= req@.update(1, op::GET_EFFECTS));
        } else {
            let a = self.respond(req);
            self.pending = Some(a);
            assert(self.model().profiles =~= m.profiles);
            return;
        }
        self.pending = None;
        assert(self.model().profiles =~= sim_step(m, req@).profiles);
    }

    /// A read: the waiting answer, or else a lighting frame.
    fn read(&mut self) -> (r: Packet)
        ensures
            r@ == sim_read(old(self).model()).0,
            final(self).model() == sim_read(old(self).model()).1,
    {
        proof {
            use_type_invariant(&*self);
        }
        let ghost m = self.model();
        match self.pending {
            Some(a) => {
                self.pending = None;
                assert(self.model().profiles =~= m.profiles);
                a
            },
            None => self.frame_packet(),
        }
    }
}

proof fn lemma_request_bytes(op: u8, params: Seq<u8>)
    requires
        params.len() <= REPORT_LEN - 4,
    ensures
        request_spec(op, params).len() == REPORT_LEN,
        request_spec(op, params)[1] == op,
        forall|i: int| 0 <= i < params.len() ==> request_spec(op, params)[4 + i] == params[i],
{
}

/// Every lighting frame lists its zones in strictly increasing order of zone
/// code, the logo left out while it is dark.
pub proof fn law_frame_in_code_order(m: SimModel)
    requires
        model_wf(m),
    ensures
        code_order(visible(m)),
        forall|i: int| 0 <= i < visible(m).len() ==> m.logo || (#[trigger] visible(m)[i]).0 != LOGO,
{
    let pred = |e: (u16, Rgb)| m.logo || e.0 != LOGO;
    lemma_filter_in_order(m.frame, pred);
    assert forall|i: int| 0 <= i < visible(m).len() implies m.logo || (#[trigger] visible(m)[i]).0 != LOGO by {
        broadcast use vstd::seq_lib::group_filter_ensures;
    }
}

/// A frame made from colours `colors` lists every zone of the simulator and
/// every zone named, and no other; a lighting frame shows each of them, the
/// logo only while it is lit.
pub proof fn law_frame_lists_every_zone(m: SimModel, colors: Seq<(u16, Rgb)>, k: u16)
    requires
        m.frame == frame_of(dark_frame_spec() + colors),
    ensures
        has_code(m.frame, k) <==> (sim_codes().contains(k) || has_code(colors, k)),
        has_code(m.frame, k) && (m.logo || k != LOGO) ==> has_code(visible(m), k),
{
    let all = dark_frame_spec() + colors;
    lemma_frame_of_codes(all, k);
    if sim_codes().contains(k) {
        let t = choose|t: int| 0 <= t < sim_codes().len() && sim_codes()[t] == k;
        assert(all[t].0 == k);
    }
    if has_code(colors, k) {
        let j = choose|j: int| 0 <= j < colors.len() && #[trigger] colors[j].0 == k;
        assert(all[dark_frame_spec().len() + j].0 == k);
    }
    if has_code(all, k) {
        let j = choose|j: int| 0 <= j < all.len() && #[trigger] all[j].0 == k;
        if j < dark_frame_spec().len() {
            assert(sim_codes()[j] == k);
        } else {
            assert(colors[j - dark_frame_spec().len()].0 == k);
        }
    }
    if has_code(m.frame, k) && (m.logo || k != LOGO) {
        let pred = |e: (u16, Rgb)| m.logo || e.0 != LOGO;
        let i = choose|i: int| 0 <= i < m.frame.len() && #[trigger] m.frame[i].0 == k;
        m.frame.lemma_filter_contains(pred, i);
        let x = m.frame[i];
        assert(visible(m).contains(x));
        let j = choose|j: int| 0 <= j < visible(m).len() && visible(m)[j] == x;
        assert(visible(m)[j].0 == k);
    }
}

/// A brightness written is read back, capped at 9.
pub proof fn law_brightness_read_back(m: SimModel, v: u8)
    ensures
        ({
            let m1 = sim_step(m, request_spec(op::SET_BRIGHTNESS, seq![v]));
            let r = sim_read(sim_step(m1, request_spec(op::GET_BRIGHTNESS, seq![]))).0;
            r[1] == op::GET_BRIGHTNESS && r[4] == (if v > p::MAX_BRIGHTNESS {
                p::MAX_BRIGHTNESS
            } else {
                v
            })
        }),
{
    lemma_request_bytes(op::SET_BRIGHTNESS, seq![v]);
    lemma_request_bytes(op::GET_BRIGHTNESS, seq![]);
}

/// A profile made active is read back as active, brought into 1 to 6.
pub proof fn law_profile_read_back(m: SimModel, n: u8)
    ensures
        ({
            let m1 = sim_step(m, request_spec(op::SET_PROFILE, seq![n]));
            let r = sim_read(sim_step(m1, request_spec(op::GET_PROFILE, seq![]))).0;
            r[1] == op::GET_PROFILE && r[4] == clamp(n, 1, 6)
        }),
{
    lemma_request_bytes(op::SET_PROFILE, seq![n]);
    lemma_request_bytes(op::GET_PROFILE, seq![]);
}

/// The logo state written is read back (lit only for the value 1).
pub proof fn law_logo_read_back(m: SimModel, b: u8)
    ensures
        ({
            let m1 = sim_step(m, request_spec(op::SET_LOGO, seq![b]));
            let r = sim_read(sim_step(m1, request_spec(op::GET_LOGO, seq![]))).0;
            r[1] == op::GET_LOGO && (r[4] == 1) == (b == 1)
        }),
{
    lemma_request_bytes(op::SET_LOGO, seq![b]);
    lemma_request_bytes(op::GET_LOGO, seq![]);
}

/// Layers written into a profile are read back from it: the same layers,
/// with explicit zones dropped where the wire holds the all-zones marker.
#[verifier::spinoff_prover]
#[verifier::rlimit(40)]
pub proof fn law_effects_read_back(m: SimModel, n: u8, es: Seq<EffectModel>)
    requires
        1 <= n <= 6,
        model_wf(m),
        encode_spec(n, es) is Ok,
    ensures
        ({
            let m1 = sim_step(m, encode_spec(n, es)->Ok_0);
            let r = sim_read(sim_step(m1, request_spec(op::GET_EFFECTS, seq![n]))).0;
            decode_spec(r) == Some((n, read_back_all(es)))
        }),
{
    let pkt = encode_spec(n, es)->Ok_0;
    let rb = read_back_all(es);
    assert(pkt[1] == op::SET_EFFECTS);
    lemma_encode_decode_roundtrip(n, es);
    let m1 = sim_step(m, pkt);
    assert(m1.profiles[n - 1] == rb);
    let req = request_spec(op::GET_EFFECTS, seq![n]);
    lemma_request_bytes(op::GET_EFFECTS, seq![n]);
    lemma_read_back_len(es);
    assert(encode_spec(n, rb) is Ok);
    let pkt2 = encode_spec(n, rb)->Ok_0;
    assert(pkt2[2] == 0xC0);
    let r = pkt2.update(1, op::GET_EFFECTS).update(2, 0xC0);
    assert(r =~= pkt2.update(1, op::GET_EFFECTS));
    assert(sim_read(sim_step(m1, req)).0 == r);
    lemma_encode_decode_roundtrip(n, rb);
    lemma_read_back_idempotent(es);
}

/// Replaying `a + b` is replaying `a`, then `b`.
proof fn lemma_replay_split(o: SimModel, a: Seq<Exchange>, b: Seq<Exchange>)
    ensures
        sim_replay(o, a + b) == match sim_replay(o, a) {
            Some(m) => sim_replay(m, b),
            None => None,
        },
    decreases b.len(),
{
    if b.len() == 0 {
        assert(a + b =~= a);
    } else {
        lemma_replay_split(o, a, b.drop_last());
        assert((a + b).drop_last() =~= a + b.drop_last());
    }
}

/// The controller with no answer waiting.
pub open spec fn drained(m: SimModel) -> SimModel {
    SimModel { pending: None, ..m }
}

/// A read request made of the simulator from state `m`, at the start of the
/// exchanges `made`: the first try gets the answer to `req`, from the
/// controller as the stale read leaves it.
proof fn lemma_sim_query(
    m: SimModel,
    made: Seq<Exchange>,
    req: Seq<u8>,
    op: u8,
    b4: Option<u8>,
    b5: Option<u8>,
)
    requires
        sim_replay(m, made) is Some,
        query_run(made, req, op, b4, b5, 0) is Some,
        sim_step(drained(m), req) == (SimModel {
            pending: Some(respond_spec(drained(m), req)),
            ..drained(m)
        }),
        accepts(op, b4, b5, respond_spec(drained(m), req)),
    ensures
        made.len() >= 4,
        query_run(made, req, op, b4, b5, 0) == Some(
            (Outcome::Done(respond_spec(drained(m), req)), 4int),
        ),
        sim_replay(m, made.take(4)) == Some(drained(m)),
        sim_replay(drained(m), made.skip(4)) is Some,
{
    let m1 = drained(m);
    let m2 = sim_step(m1, req);
    let a = respond_spec(m1, req);
    lemma_replay_split(m, made.take(1), made.skip(1));
    assert(made.take(1) + made.skip(1) =~= made);
    assert(made.take(1).drop_last() =~= Seq::<Exchange>::empty());
    assert(sim_replay(m, Seq::<Exchange>::empty()) == Some(m));
    assert(made[0] matches Exchange::Read(Ok(_)));
    assert(m.pending is None ==> drained(m) == m);
    assert(sim_replay(m, made.take(1)) == Some(m1));
    lemma_replay_split(m, made.take(2), made.skip(2));
    assert(made.take(2) + made.skip(2) =~= made);
    assert(made.take(2).drop_last() =~= made.take(1));
    assert(made[1] matches Exchange::Sent(pkt, Ok(_)) && pkt == req);
    assert(sim_replay(m, made.take(2)) == Some(m2));
    lemma_replay_split(m, made.take(3), made.skip(3));
    assert(made.take(3) + made.skip(3) =~= made);
    assert(made.take(3).drop_last() =~= made.take(2));
    assert(made[2] == Exchange::Paused(QUERY_WAITS@[0]));
    assert(sim_replay(m, made.take(3)) == Some(m2));
    lemma_replay_split(m, made.take(4), made.skip(4));
    assert(made.take(4) + made.skip(4) =~= made);
    assert(made.take(4).drop_last() =~= made.take(3));
    assert(made[3] == Exchange::Read(Ok(a)));
    assert(sim_replay(m, made.take(4)) == Some(drained(m2)));
    assert(drained(m2) == m1);
    assert(query_run(made, req, op, b4, b5, 0) == Some((Outcome::Done(a), 4int)));
}

/// Log `l2` goes on from `l0` with exchange `x`.
proof fn lemma_since_push(l0: Seq<Exchange>, x: Exchange, l2: Seq<Exchange>)
    requires
        l0.push(x).is_prefix_of(l2),
    ensures
        l0.is_prefix_of(l2),
        since(l2, l0) == seq![x] + since(l2, l0.push(x)),
{
    let l1 = l0.push(x);
    assert(l1[l0.len() as int] == l2.subrange(0, l1.len() as int)[l0.len() as int]);
    assert forall|i: int| 0 <= i < l0.len() implies l0[i] == l2.subrange(0, l0.len() as int)[i] by {
        assert(l1[i] == l2.subrange(0, l1.len() as int)[i]);
    }
    assert(l0 =~= l2.subrange(0, l0.len() as int));
    assert(since(l2, l0) =~= seq![x] + since(l2, l1));
}

/// The simulator state that a keyboard's log reaches after its first `n`
/// exchanges, as the transport made them.
proof fn lemma_keyboard_state(kb: Keyboard<SimTransport>, before: Seq<Exchange>) -> (m: SimModel)
    requires
        before.is_prefix_of(kb.log()),
    ensures
        m.profiles.len() == 6,
        sim_replay(m, since(kb.log(), before)) is Some,
{
    SimTransport::lemma_history(kb.transport());
    let o = kb.transport().origin();
    let log = kb.log();
    assert(log.take(before.len() as int) =~= before);
    assert(log.take(log.len() as int) =~= log);
    let m = sim_replay(o, before)->0;
    lemma_replay_split(o, before, since(log, before));
    assert(before + since(log, before) =~= log);
    m
}

/// On the simulator, the brightness a keyboard writes is what it then
/// reads, capped at 9.
pub proof fn law_keyboard_brightness(
    kb0: Keyboard<SimTransport>,
    kb1: Keyboard<SimTransport>,
    kb2: Keyboard<SimTransport>,
    v: u8,
    set: Result<()>,
    got: Result<u8>,
)
    requires
        kb1.log() == kb0.log().push(
            Exchange::Sent(
                request_spec(op::SET_BRIGHTNESS, seq![if v > p::MAX_BRIGHTNESS { p::MAX_BRIGHTNESS } else { v }]),
                set,
            ),
        ),
        kb1.log().is_prefix_of(kb2.log()),
        read_made(since(kb2.log(), kb1.log()), op::GET_BRIGHTNESS, got, |b: u8| b),
    ensures
        set is Ok,
        got matches Ok(b) && b == (if v > p::MAX_BRIGHTNESS { p::MAX_BRIGHTNESS } else { v }),
{
    let w = if v > p::MAX_BRIGHTNESS { p::MAX_BRIGHTNESS } else { v };
    let set_req = request_spec(op::SET_BRIGHTNESS, seq![w]);
    let get_req = request_spec(op::GET_BRIGHTNESS, seq![]);
    lemma_request_bytes(op::SET_BRIGHTNESS, seq![w]);
    lemma_request_bytes(op::GET_BRIGHTNESS, seq![]);
    let made = since(kb2.log(), kb1.log());
    lemma_since_push(kb0.log(), Exchange::Sent(set_req, set), kb2.log());
    let m0 = lemma_keyboard_state(kb2, kb0.log());
    lemma_replay_split(m0, seq![Exchange::Sent(set_req, set)], made);
    assert(seq![Exchange::Sent(set_req, set)].drop_last() =~= Seq::<Exchange>::empty());
    assert(sim_replay(m0, Seq::<Exchange>::empty()) == Some(m0));
    let m1 = sim_step(m0, set_req);
    assert(drained(m1) == m1);
    lemma_sim_query(m1, made, get_req, op::GET_BRIGHTNESS, None, None);
}

/// On the simulator, the logo state a keyboard writes is what it then reads.
pub proof fn law_keyboard_logo(
    kb0: Keyboard<SimTransport>,
    kb1: Keyboard<SimTransport>,
    kb2: Keyboard<SimTransport>,
    on: bool,
    set: Result<()>,
    got: Result<bool>,
)
    requires
        kb1.log() == kb0.log().push(
            Exchange::Sent(request_spec(op::SET_LOGO, seq![if on { 1u8 } else { 0u8 }]), set),
        ),
        kb1.log().is_prefix_of(kb2.log()),
        read_made(since(kb2.log(), kb1.log()), op::GET_LOGO, got, |b: u8| b == 1),
    ensures
        set is Ok,
        got matches Ok(b) && b == on,
{
    let set_req = request_spec(op::SET_LOGO, seq![if on { 1u8 } else { 0u8 }]);
    let get_req = request_spec(op::GET_LOGO, seq![]);
    lemma_request_bytes(op::SET_LOGO, seq![if on { 1u8 } else { 0u8 }]);
    lemma_request_bytes(op::GET_LOGO, seq![]);
    let made = since(kb2.log(), kb1.log());
    lemma_since_push(kb0.log(), Exchange::Sent(set_req, set), kb2.log());
    let m0 = lemma_keyboard_state(kb2, kb0.log());
    lemma_replay_split(m0, seq![Exchange::Sent(set_req, set)], made);
    assert(seq![Exchange::Sent(set_req, set)].drop_last() =~= Seq::<Exchange>::empty());
    assert(sim_replay(m0, Seq::<Exchange>::empty()) == Some(m0));
    let m1 = sim_step(m0, set_req);
    assert(drained(m1) == m1);
    lemma_sim_query(m1, made, get_req, op::GET_LOGO, None, None);
}

/// On the simulator, the profile a keyboard makes active is what it then
/// reads, brought into 1 to 6.
pub proof fn law_keyboard_profile(
    kb0: Keyboard<SimTransport>,
    kb1: Keyboard<SimTransport>,
    kb2: Keyboard<SimTransport>,
    n: u8,
    set: Result<()>,
    got: Result<u8>,
)
    requires
        kb1.log() == kb0.log().push(Exchange::Sent(request_spec(op::SET_PROFILE, seq![n]), set)),
        kb1.log().is_prefix_of(kb2.log()),
        read_made(since(kb2.log(), kb1.log()), op::GET_PROFILE, got, |b: u8| b),
    ensures
        set is Ok,
        got matches Ok(b) && b == clamp(n, 1, 6),
{
    let set_req = request_spec(op::SET_PROFILE, seq![n]);
    let get_req = request_spec(op::GET_PROFILE, seq![]);
    lemma_request_bytes(op::SET_PROFILE, seq![n]);
    lemma_request_bytes(op::GET_PROFILE, seq![]);
    let made = since(kb2.log(), kb1.log());
    lemma_since_push(kb0.log(), Exchange::Sent(set_req, set), kb2.log());
    let m0 = lemma_keyboard_state(kb2, kb0.log());
    lemma_replay_split(m0, seq![Exchange::Sent(set_req, set)], made);
    assert(seq![Exchange::Sent(set_req, set)].drop_last() =~= Seq::<Exchange>::empty());
    assert(sim_replay(m0, Seq::<Exchange>::empty()) == Some(m0));
    let m1 = sim_step(m0, set_req);
    assert(drained(m1) == m1);
    lemma_sim_query(m1, made, get_req, op::GET_PROFILE, None, None);
}

#[verifier::spinoff_prover]
#[verifier::rlimit(60)]
/// On the simulator, the layers a keyboard writes into profile `n` are what
/// it then reads from it: the compressed layers, with explicit zones dropped
/// where the wire holds the all-zones marker; so exactly the compressed
/// layers when none names that marker as its only zone.
pub proof fn law_keyboard_effects(
    kb0: Keyboard<SimTransport>,
    kb1: Keyboard<SimTransport>,
    kb2: Keyboard<SimTransport>,
    n: u8,
    es: Seq<EffectModel>,
    set: Result<()>,
    got: Result<Vec<Effect>>,
)
    requires
        1 <= n <= 6,
        encode_spec(n, compress_spec(es)) is Ok,
        kb1.log() == kb0.log().push(Exchange::Sent(encode_spec(n, compress_spec(es))->Ok_0, set)),
        kb1.log().is_prefix_of(kb2.log()),
        query_run(
            since(kb2.log(), kb1.log()),
            request_spec(op::GET_EFFECTS, seq![n]),
            op::GET_EFFECTS,
            Some(n),
            None,
            0,
        ) matches Some((out, k)) && k == kb2.log().len() - kb1.log().len() && yields(
            got,
            layers_of(out),
            |v: Vec<Effect>| models(v@),
        ),
    ensures
        set is Ok,
        got matches Ok(v) && models(v@) == read_back_all(compress_spec(es)),
        (forall|i: int|
            0 <= i < compress_spec(es).len() ==> (#[trigger] compress_spec(es)[i]).keys != seq![
                p::ALL_ZONES,
            ]) ==> (got matches Ok(v) && models(v@) == compress_spec(es)),
{
    lemma_compress_reads_back(es);
    let c = compress_spec(es);
    let pkt = encode_spec(n, c)->Ok_0;
    let rb = read_back_all(c);
    let get_req = request_spec(op::GET_EFFECTS, seq![n]);
    lemma_request_bytes(op::GET_EFFECTS, seq![n]);
    let made = since(kb2.log(), kb1.log());
    lemma_since_push(kb0.log(), Exchange::Sent(pkt, set), kb2.log());
    let m0 = lemma_keyboard_state(kb2, kb0.log());
    lemma_replay_split(m0, seq![Exchange::Sent(pkt, set)], made);
    assert(seq![Exchange::Sent(pkt, set)].drop_last() =~= Seq::<Exchange>::empty());
    assert(sim_replay(m0, Seq::<Exchange>::empty()) == Some(m0));
    assert(pkt[1] == op::SET_EFFECTS);
    lemma_encode_decode_roundtrip(n, c);
    let m1 = sim_step(m0, pkt);
    assert(m1.profiles[n - 1] == rb);
    assert(drained(m1) == m1);
    lemma_read_back_len(c);
    assert(encode_spec(n, rb) is Ok);
    let pkt2 = encode_spec(n, rb)->Ok_0;
    assert(pkt2[2] == 0xC0);
    let r = pkt2.update(1, op::GET_EFFECTS).update(2, 0xC0);
    assert(r =~= pkt2.update(1, op::GET_EFFECTS));
    lemma_encode_decode_roundtrip(n, rb);
    lemma_read_back_idempotent(c);
    assert(respond_spec(m1, get_req) == r);
    assert(decode_spec(r) == Some((n, rb)));
    lemma_sim_query(m1, made, get_req, op::GET_EFFECTS, Some(n), None);
}

/// The factory layers of every profile fit into a packet.
proof fn lemma_factory_encodes(n: u8)
    requires
        1 <= n <= 6,
    ensures
        encode_spec(n, factory_profile(n as int)) is Ok,
{
    lemma_sim_codes_len();
    let all = sim_codes();
    all.filter_lemma(|k: u16| k >= 0x100);
    all.filter_lemma(|k: u16| k < 0x100);
    let f = factory_profile(n as int);
    assert forall|i: int| 0 <= i < f.len() implies (#[trigger] f[i]).colors.len() <= 1 && p::wire_key_count(
        f[i],
    ) <= 199 && p::layer_len(f[i]) <= 417 by {}
    if n == 4 {
        super::protocol::codec::lemma_body_len_front(f[0], f.drop_first());
        super::protocol::codec::lemma_body_len_front(f[1], f.drop_first().drop_first());
        super::protocol::codec::lemma_body_len_front(f[2], Seq::empty());
        assert(f =~= seq![f[0]] + f.drop_first());
        assert(f.drop_first() =~= seq![f[1]] + f.drop_first().drop_first());
        assert(f.drop_first().drop_first() =~= seq![f[2]] + Seq::<EffectModel>::empty());
        assert(p::layer_len(f[2]) <= 27);
    } else {
        lemma_one_layer_len(f[0]);
        assert(f =~= seq![f[0]]);
    }
}

/// On the simulator, a profile that a keyboard resets reads back as its
/// factory layers, whatever was written into it before.
#[verifier::spinoff_prover]
#[verifier::rlimit(60)]
pub proof fn law_keyboard_reset(
    kb0: Keyboard<SimTransport>,
    kb1: Keyboard<SimTransport>,
    kb2: Keyboard<SimTransport>,
    n: u8,
    set: Result<()>,
    got: Result<Vec<Effect>>,
)
    requires
        1 <= n <= 6,
        kb1.log() == kb0.log().push(
            Exchange::Sent(request_spec(op::PROFILE_DEFAULT, seq![n]), set),
        ),
        kb1.log().is_prefix_of(kb2.log()),
        query_run(
            since(kb2.log(), kb1.log()),
            request_spec(op::GET_EFFECTS, seq![n]),
            op::GET_EFFECTS,
            Some(n),
            None,
            0,
        ) matches Some((out, k)) && k == kb2.log().len() - kb1.log().len() && yields(
            got,
            layers_of(out),
            |v: Vec<Effect>| models(v@),
        ),
    ensures
        set is Ok,
        got matches Ok(v) && models(v@) == factory_profile(n as int),
{
    lemma_factory_reads_back(n as int);
    let f = factory_profile(n as int);
    let set_req = request_spec(op::PROFILE_DEFAULT, seq![n]);
    let get_req = request_spec(op::GET_EFFECTS, seq![n]);
    lemma_request_bytes(op::PROFILE_DEFAULT, seq![n]);
    lemma_request_bytes(op::GET_EFFECTS, seq![n]);
    let made = since(kb2.log(), kb1.log());
    lemma_since_push(kb0.log(), Exchange::Sent(set_req, set), kb2.log());
    let m0 = lemma_keyboard_state(kb2, kb0.log());
    lemma_replay_split(m0, seq![Exchange::Sent(set_req, set)], made);
    assert(seq![Exchange::Sent(set_req, set)].drop_last() =~= Seq::<Exchange>::empty());
    assert(sim_replay(m0, Seq::<Exchange>::empty()) == Some(m0));
    let m1 = sim_step(m0, set_req);
    assert(m1.profiles[n - 1] == f);
    assert(drained(m1) == m1);
    lemma_factory_encodes(n);
    let pkt2 = encode_spec(n, f)->Ok_0;
    assert(pkt2[2] == 0xC0);
    let r = pkt2.update(1, op::GET_EFFECTS).update(2, 0xC0);
    assert(r =~= pkt2.update(1, op::GET_EFFECTS));
    lemma_encode_decode_roundtrip(n, f);
    assert(respond_spec(m1, get_req) == r);
    assert(decode_spec(r) == Some((n, read_back_all(f))));
    lemma_sim_query(m1, made, get_req, op::GET_EFFECTS, Some(n), None);
}

/// A page request of the simulator gives the zone codes of its row.
proof fn lemma_page_codes(req: Seq<u8>)
    requires
        req.len() == REPORT_LEN,
    ensures
        page_codes(page_answer(req), 22) == (if page_row(req).len() == 22 {
            page_row(req)
        } else {
            Seq::new(22, |x: int| 0u16)
        }),
{
    let a = page_answer(req);
    let row = page_row(req);
    assert forall|x: int| 0 <= x < 22 implies #[trigger] key_page_entry(a, x) == (if row.len() == 22 {
        row[x]
    } else {
        0u16
    }) by {
        let i = 7 + 3 * x;
        assert((i - 6) / 3 == x && (i - 6) % 3 == 1);
        assert((i + 1 - 6) / 3 == x && (i + 1 - 6) % 3 == 2);
        if row.len() == 22 {
            let k = row[x];
            assert(le16(le_lo(k), le_hi(k)) == k);
        } else {
            assert(row.len() == 0);
            assert(a[i] == answer_base(req)[i]);
            assert(a[i + 1] == answer_base(req)[i + 1]);
        }
    }
    if row.len() == 22 {
        assert(page_codes(a, 22) =~= row);
    } else {
        assert(page_codes(a, 22) =~= Seq::new(22, |x: int| 0u16));
    }
}

/// The rows from `y` on, read from the simulator in state `s`.
proof fn lemma_sim_rows(s: SimModel, ev: Seq<Exchange>, y: int)
    requires
        0 <= y <= 9,
        s.pending is None,
        sim_replay(s, ev) is Some,
        rows_run(ev, 22, 9, y) is Some,
    ensures
        ev.len() >= 4 * (9 - y),
        rows_run(ev, 22, 9, y) == Some((Outcome::Done(matrix_rows().subrange(y, 9)), 4 * (9 - y))),
        sim_replay(s, ev.skip(4 * (9 - y))) is Some,
    decreases 9 - y,
{
    if y == 9 {
        assert(matrix_rows().subrange(9, 9) =~= Seq::<Seq<u16>>::empty());
        assert(ev.skip(0) =~= ev);
    } else {
        let req = request_spec(op::KEY_PAGE, seq![7u8, y as u8]);
        lemma_request_bytes(op::KEY_PAGE, seq![7u8, y as u8]);
        assert(drained(s) == s);
        lemma_sim_query(s, ev, req, op::KEY_PAGE, Some(7u8), Some(y as u8));
        lemma_replay_split(s, ev.take(4), ev.skip(4));
        assert(ev.take(4) + ev.skip(4) =~= ev);
        lemma_sim_rows(s, ev.skip(4), y + 1);
        lemma_page_codes(req);
        assert(page_row(req) == matrix_rows()[y]);
        assert(seq![matrix_rows()[y]] + matrix_rows().subrange(y + 1, 9) =~= matrix_rows().subrange(y, 9));
        assert(ev.skip(4).skip(4 * (9 - (y + 1))) =~= ev.skip(4 * (9 - y)));
    }
}

/// On the simulator, the zone matrix a keyboard reads is the keyboard's:
/// 22 columns, 9 rows as the matrix has them, and the logo outside it.
#[verifier::spinoff_prover]
#[verifier::rlimit(60)]
pub proof fn law_keyboard_matrix(
    kb0: Keyboard<SimTransport>,
    kb1: Keyboard<SimTransport>,
    res: Result<KeyMatrix>,
)
    requires
        kb0.log().is_prefix_of(kb1.log()),
        matrix_run(since(kb1.log(), kb0.log())) matches Some((out, n)) && n == kb1.log().len()
            - kb0.log().len() && yields(res, out, |m: KeyMatrix| m.shape()),
    ensures
        res matches Ok(m) && m.shape() == (22usize, 9usize, matrix_rows(), seq![LOGO]),
{
    let ev = since(kb1.log(), kb0.log());
    let m0 = lemma_keyboard_state(kb1, kb0.log());
    let s = drained(m0);
    let reqc = request_spec(op::KEY_COUNT, seq![7u8]);
    lemma_request_bytes(op::KEY_COUNT, seq![7u8]);
    lemma_sim_query(m0, ev, reqc, op::KEY_COUNT, None, None);
    let c = respond_spec(s, reqc);
    assert(c[5] == 9 && c[6] == 22);
    let ev1 = ev.skip(4);
    lemma_sim_rows(s, ev1, 0);
    assert(matrix_rows().subrange(0, 9) =~= matrix_rows());
    let ev2 = ev1.skip(36);
    assert(ev.skip(40) =~= ev2);
    let req8 = request_spec(op::KEY_PAGE, seq![8u8, 0u8]);
    lemma_request_bytes(op::KEY_PAGE, seq![8u8, 0u8]);
    lemma_sim_query(s, ev2, req8, op::KEY_PAGE, Some(8u8), None);
    lemma_page_codes(req8);
    let row8 = page_row(req8);
    assert(row8 =~= seq![LOGO] + Seq::new(21, |i: int| 0u16));
    reveal_with_fuel(Seq::filter, 23);
    assert(nonzero(row8) =~= seq![LOGO]);
}

/// A keyboard just opened on a new simulator reads the state the simulator
/// starts in: brightness 5, profile 3, the logo lit. `f` is what the read
/// request makes of byte 4 of the answer.
pub proof fn law_keyboard_first_read<B>(
    t: SimTransport,
    kb0: Keyboard<SimTransport>,
    kb1: Keyboard<SimTransport>,
    op: u8,
    f: spec_fn(u8) -> B,
    got: Result<B>,
)
    requires
        t.keeps_log(),
        t.exchanges().len() == 0,
        kb0.logged(),
        t.exchanges().is_prefix_of(kb0.log()),
        connect_made(since(kb0.log(), t.exchanges()), Ok(())),
        kb1.logged(),
        kb0.log().is_prefix_of(kb1.log()),
        read_made(since(kb1.log(), kb0.log()), op, got, f),
        op == op::GET_BRIGHTNESS || op == op::GET_PROFILE || op == op::GET_LOGO,
    ensures
        got matches Ok(b) && b == f(
            if op == op::GET_BRIGHTNESS {
                5u8
            } else if op == op::GET_PROFILE {
                3u8
            } else {
                1u8
            },
        ),
{
    let s0 = start_model();
    let opening = kb0.log();
    assert(since(kb0.log(), t.exchanges()) =~= opening);
    let made = since(kb1.log(), kb0.log());
    SimTransport::lemma_history(kb1.transport());
    assert(kb1.transport().origin() == s0);
    let log = kb1.log();
    assert(log.take(log.len() as int) =~= log);
    assert(opening + made =~= log);
    lemma_replay_split(s0, opening, made);
    let creq = request_spec(op::COMPATIBILITY, seq![]);
    lemma_request_bytes(op::COMPATIBILITY, seq![]);
    lemma_replay_split(s0, opening.take(4), opening.skip(4));
    assert(opening.take(4) + opening.skip(4) =~= opening);
    assert(drained(s0) == s0);
    lemma_sim_query(s0, opening, creq, op::COMPATIBILITY, None, None);
    assert(opening.take(4) =~= opening);
    let req = request_spec(op, seq![]);
    lemma_request_bytes(op, seq![]);
    lemma_sim_query(s0, made, req, op, None, None);
}

/// A cell of the rows is in their concatenation.
proof fn lemma_flat_rows_contains(rows: Seq<Seq<u16>>, y: int, x: int)
    requires
        0 <= y < rows.len(),
        0 <= x < rows[y].len(),
    ensures
        flat_rows(rows).contains(rows[y][x]),
    decreases rows.len(),
{
    let d = rows.drop_last();
    if y < rows.len() - 1 {
        lemma_flat_rows_contains(d, y, x);
        let i = choose|i: int| 0 <= i < flat_rows(d).len() && flat_rows(d)[i] == rows[y][x];
        assert((flat_rows(d) + rows.last())[i] == rows[y][x]);
    } else {
        assert((flat_rows(d) + rows.last())[flat_rows(d).len() + x] == rows[y][x]);
    }
}

/// Every zone code of `s` is among its distinct codes.
proof fn lemma_distinct_codes_contains(s: Seq<u16>, k: u16)
    requires
        k != 0,
        s.contains(k),
    ensures
        distinct_codes(s).contains(k),
    decreases s.len(),
{
    let d = s.drop_last();
    let acc = distinct_codes(d);
    if s.last() != k {
        let i = choose|i: int| 0 <= i < s.len() && s[i] == k;
        assert(d[i] == k);
        lemma_distinct_codes_contains(d, k);
        let j = choose|j: int| 0 <= j < acc.len() && acc[j] == k;
        if k != 0 && !acc.contains(s.last()) && s.last() != 0 {
            assert(acc.push(s.last())[j] == k);
        }
    } else if !acc.contains(k) {
        assert(acc.push(k)[acc.len() as int] == k);
    }
}

/// The factory layers read back as they are: none holds the all-zones marker
/// as its only zone, and none covers all zones.
proof fn lemma_factory_reads_back(n: int)
    requires
        1 <= n <= 6,
    ensures
        read_back_all(factory_profile(n)) == factory_profile(n),
{
    broadcast use vstd::seq_lib::group_filter_ensures;

    let all = sim_codes();
    let f = factory_profile(n);
    assert(all[all.len() - 1] == LOGO);
    assert(all != seq![p::ALL_ZONES]);
    if n == 4 {
        let low = all.filter(|k: u16| k < 0x100);
        let high = all.filter(|k: u16| k >= 0x100);
        if high == seq![p::ALL_ZONES] {
            assert(high.contains(high[0]));
        }
        lemma_flat_rows_contains(matrix_rows(), 1, 1);
        lemma_flat_rows_contains(matrix_rows(), 1, 2);
        lemma_distinct_codes_contains(flat_rows(matrix_rows()), 1);
        lemma_distinct_codes_contains(flat_rows(matrix_rows()), 2);
        let d = distinct_codes(flat_rows(matrix_rows()));
        let i1 = choose|i: int| 0 <= i < d.len() && d[i] == 1u16;
        let i2 = choose|i: int| 0 <= i < d.len() && d[i] == 2u16;
        assert(all[i1] == 1u16 && all[i2] == 2u16);
        all.lemma_filter_contains(|k: u16| k < 0x100, i1);
        all.lemma_filter_contains(|k: u16| k < 0x100, i2);
        if low == seq![p::ALL_ZONES] {
            assert(low.contains(1u16));
            assert(false);
        }
        assert(wasd() != seq![p::ALL_ZONES]) by {
            assert(wasd().len() == 4);
        }
    }
    assert(read_back_all(f) =~= f);
}

/// The compressed layers read back as they are when none names the
/// all-zones marker as its only zone.
proof fn lemma_compress_reads_back(es: Seq<EffectModel>)
    ensures
        (forall|i: int|
            0 <= i < compress_spec(es).len() ==> (#[trigger] compress_spec(es)[i]).keys != seq![
                p::ALL_ZONES,
            ]) ==> read_back_all(compress_spec(es)) == compress_spec(es),
{
    let c = compress_spec(es);
    if forall|i: int| 0 <= i < c.len() ==> (#[trigger] c[i]).keys != seq![p::ALL_ZONES] {
        assert forall|i: int| 0 <= i < c.len() implies #[trigger] read_back(c[i]) == c[i] by {
            if c[i].kind.is_all_zones() {
                law_compress_all_zones_empty(es, i);
                assert(c[i].keys =~= Seq::<u16>::empty());
            }
        }
        assert(read_back_all(c) =~= c);
    }
}

} // verus!
