//! Overlap of effect layers: which zones each layer still paints once the
//! profile is written. Every zone goes to the top (last) layer that claims it;
//! a layer on all zones cancels the others; a layer that reacts to key presses
//! cannot be partly covered and is dropped instead.

use vstd::prelude::*;
use std::collections::HashSet;
use super::{Effect, EffectModel};

verus! {

/// A key-press layer (`is_whole_keyboard`) is dropped when a layer above
/// already claims one of its zones.
pub open spec fn skipped(e: EffectModel, used: Set<u16>) -> bool {
    e.kind.is_whole_keyboard() && exists|j: int| 0 <= j < e.keys.len() && used.contains(e.keys[j])
}

/// Zones claimed by layers `i..` (dropped layers claim nothing).
pub open spec fn used_from(es: Seq<EffectModel>, i: int) -> Set<u16>
    decreases es.len() - i,
{
    if i >= es.len() || i < 0 {
        Set::empty()
    } else {
        let above = used_from(es, i + 1);
        if skipped(es[i], above) {
            above
        } else {
            above.union(es[i].keys.to_set())
        }
    }
}

/// The keys of `keys` that are not in `used`, each once, in first-occurrence order.
pub open spec fn fresh_keys(keys: Seq<u16>, used: Set<u16>) -> Seq<u16>
    decreases keys.len(),
{
    if keys.len() == 0 {
        Seq::empty()
    } else if used.contains(keys[0]) {
        fresh_keys(keys.drop_first(), used)
    } else {
        seq![keys[0]] + fresh_keys(keys.drop_first(), used.insert(keys[0]))
    }
}

/// Index of the last all-zones layer among the first `n`, or -1.
pub open spec fn last_all_zones(es: Seq<EffectModel>, n: int) -> int
    decreases n,
{
    if n <= 0 {
        -1
    } else if es[n - 1].kind.is_all_zones() {
        n - 1
    } else {
        last_all_zones(es, n - 1)
    }
}

/// Zones that layer `i` still paints; `None` when the layer is dropped.
pub open spec fn survivor(es: Seq<EffectModel>, i: int) -> Option<Seq<u16>> {
    let top = last_all_zones(es, es.len() as int);
    if top >= 0 {
        if i == top {
            Some(Seq::empty())
        } else {
            None
        }
    } else {
        let above = used_from(es, i + 1);
        if skipped(es[i], above) {
            None
        } else {
            let ks = fresh_keys(es[i].keys, above);
            if ks.len() == 0 {
                None
            } else {
                Some(ks)
            }
        }
    }
}

pub open spec fn opt_keys_view(o: Option<Vec<u16>>) -> Option<Seq<u16>> {
    match o {
        Some(v) => Some(v@),
        None => None,
    }
}

/// `e` with its zones replaced by `keys`.
pub open spec fn with_keys(e: EffectModel, keys: Seq<u16>) -> EffectModel {
    EffectModel { keys, ..e }
}

/// The surviving layers among the first `n`, with their surviving zones.
pub open spec fn compress_prefix(es: Seq<EffectModel>, n: int) -> Seq<EffectModel>
    decreases n,
{
    if n <= 0 {
        Seq::empty()
    } else {
        let p = compress_prefix(es, n - 1);
        match survivor(es, n - 1) {
            Some(ks) => p.push(with_keys(es[n - 1], ks)),
            None => p,
        }
    }
}

pub open spec fn compress_spec(es: Seq<EffectModel>) -> Seq<EffectModel> {
    compress_prefix(es, es.len() as int)
}

/// Whether some zone of `keys` is in `used`.
fn key_in(keys: &Vec<u16>, used: &HashSet<u16>) -> (r: bool)
    ensures
        r == exists|j: int| 0 <= j < keys@.len() && used@.contains(keys@[j]),
{
    broadcast use vstd::std_specs::hash::group_hash_axioms;

    let mut j: usize = 0;
    while j < keys.len()
        invariant
            j <= keys@.len(),
            forall|t: int| 0 <= t < j ==> !used@.contains(keys@[t]),
        decreases keys@.len() - j,
    {
        if used.contains(&keys[j]) {
            return true;
        }
        j = j + 1;
    }
    false
}

proof fn lemma_fresh_step(keys: Seq<u16>, j: int, used: Set<u16>)
    requires
        0 <= j < keys.len(),
    ensures
        fresh_keys(keys.skip(j), used) == (if used.contains(keys[j]) {
            fresh_keys(keys.skip(j + 1), used)
        } else {
            seq![keys[j]] + fresh_keys(keys.skip(j + 1), used.insert(keys[j]))
        }),
{
    assert(keys.skip(j).drop_first() =~= keys.skip(j + 1));
}

/// Zones that each layer still paints once the profile is written (`None`:
/// the layer is dropped entirely).
pub fn survivors(effects: &[Effect]) -> (out: Vec<Option<Vec<u16>>>)
    ensures
        out@.len() == effects@.len(),
        forall|i: int|
            0 <= i < effects@.len() ==> opt_keys_view(#[trigger] out@[i]) == survivor(
                super::models(effects@),
                i,
            ),
{
    broadcast use vstd::std_specs::hash::group_hash_axioms;

    let ghost es = super::models(effects@);
    let n = effects.len();
    let mut out: Vec<Option<Vec<u16>>> = Vec::new();
    let mut t: usize = 0;
    while t < n
        invariant
            t <= n == effects@.len(),
            out@.len() == t,
            forall|i: int| 0 <= i < t ==> out@[i] is None,
        decreases n - t,
    {
        out.push(None);
        t = t + 1;
    }
    // The last all-zones layer, if any, wins alone.
    let mut top = n;
    while top > 0
        invariant
            top <= n == es.len(),
            es == super::models(effects@),
            out@.len() == n,
            forall|i: int| 0 <= i < n ==> out@[i] is None,
            last_all_zones(es, n as int) == last_all_zones(es, top as int),
        decreases top,
    {
        if effects[top - 1].kind.is_all_zones() {
            let ghost top_idx = (top - 1) as int;
            assert(last_all_zones(es, top as int) == top_idx);
            out.set(top - 1, Some(Vec::new()));
            assert forall|i: int| 0 <= i < n implies opt_keys_view(#[trigger] out@[i]) == survivor(
                es,
                i,
            ) by {}
            return out;
        }
        top = top - 1;
    }
    assert(last_all_zones(es, n as int) == -1);
    let mut used: HashSet<u16> = HashSet::new();
    assert(used@ =~= used_from(es, n as int));
    let mut i = n;
    while i > 0
        invariant
            i <= n == effects@.len(),
            es == super::models(effects@),
            last_all_zones(es, n as int) == -1,
            out@.len() == n,
            used@ == used_from(es, i as int),
            forall|t: int| 0 <= t < i ==> out@[t] is None,
            forall|t: int|
                i <= t < n ==> opt_keys_view(#[trigger] out@[t]) == survivor(es, t),
        decreases i,
    {
        i = i - 1;
        let ghost above = used@;
        let e = &effects[i];
        assert(e@ == es[i as int]);
        if e.kind.is_whole_keyboard() && key_in(&e.keys, &used) {
            assert(es[i as int].keys == e.keys@);
            assert(skipped(es[i as int], above));
            assert(used_from(es, i as int) == above);
        } else {
            assert(!skipped(es[i as int], above));
            let mut keys: Vec<u16> = Vec::new();
            let mut j: usize = 0;
            assert(e.keys@.skip(0) =~= e.keys@);
            assert(e.keys@.take(0).to_set() =~= Set::<u16>::empty());
            assert(above.union(Set::<u16>::empty()) =~= above);
            while j < e.keys.len()
                invariant
                    j <= e.keys@.len(),
                    keys@ + fresh_keys(e.keys@.skip(j as int), used@) == fresh_keys(
                        e.keys@,
                        above,
                    ),
                    used@ == above.union(e.keys@.take(j as int).to_set()),
                decreases e.keys@.len() - j,
            {
                let k = e.keys[j];
                let ghost before = used@;
                proof {
                    lemma_fresh_step(e.keys@, j as int, before);
                }
                // The zone goes to this layer when no layer above claims it.
                if used.insert(k) {
                    keys.push(k);
                    assert(keys@ + fresh_keys(e.keys@.skip(j + 1), used@) =~= (
                    keys@.drop_last() + fresh_keys(e.keys@.skip(j as int), before)));
                } else {
                    assert(before.contains(k));
                    assert(used@ =~= before);
                }
                assert(e.keys@.take(j + 1) =~= e.keys@.take(j as int).push(k));
                proof {
                    e.keys@.take(j as int).lemma_push_to_set_commute(k);
                }
                j = j + 1;
            }
            assert(e.keys@.skip(j as int) =~= Seq::<u16>::empty());
            assert(e.keys@.take(j as int) =~= e.keys@);
            assert(keys@ =~= fresh_keys(e.keys@, above));
            assert(used@ == used_from(es, i as int));
            if keys.len() > 0 {
                out.set(i, Some(keys));
            }
        }
    }
    out
}

/// Removes layer overlaps the way the firmware resolves them (see [`survivors`]).
pub fn compress(effects: &[Effect]) -> (out: Vec<Effect>)
    ensures
        super::models(out@) == compress_spec(super::models(effects@)),
{
    let ghost es = super::models(effects@);
    let surv = survivors(effects);
    let mut out: Vec<Effect> = Vec::new();
    let mut i: usize = 0;
    while i < effects.len()
        invariant
            i <= effects@.len() == surv@.len(),
            es == super::models(effects@),
            forall|t: int|
                0 <= t < effects@.len() ==> opt_keys_view(#[trigger] surv@[t]) == survivor(es, t),
            super::models(out@) == compress_prefix(es, i as int),
        decreases effects@.len() - i,
    {
        let e = &effects[i];
        match &surv[i] {
            Some(keys) => {
                assert(opt_keys_view(surv@[i as int]) == Some(keys@));
                let c = Effect {
                    kind: e.kind,
                    speed: e.speed,
                    direction: e.direction,
                    rotation: e.rotation,
                    colors: e.colors.clone(),
                    keys: keys.clone(),
                };
                assert(c.colors@ =~= e.colors@);
                assert(c.keys@ =~= keys@);
                let ghost prev = out@;
                out.push(c);
                assert(super::models(out@) =~= super::models(prev).push(c@));
            },
            None => {},
        }
        i = i + 1;
    }
    out
}

proof fn lemma_fresh_keys(keys: Seq<u16>, used: Set<u16>)
    ensures
        forall|k: u16| #[trigger]
            fresh_keys(keys, used).contains(k) <==> (keys.contains(k) && !used.contains(k)),
        fresh_keys(keys, used).no_duplicates(),
    decreases keys.len(),
{
    if keys.len() > 0 {
        let rest = keys.drop_first();
        if used.contains(keys[0]) {
            lemma_fresh_keys(rest, used);
            assert forall|k: u16| #[trigger]
                fresh_keys(keys, used).contains(k) <==> (keys.contains(k) && !used.contains(k)) by {
                if keys.contains(k) && !used.contains(k) {
                    let t = choose|t: int| 0 <= t < keys.len() && keys[t] == k;
                    assert(t != 0);
                    assert(rest[t - 1] == k);
                }
                if rest.contains(k) {
                    let t = choose|t: int| 0 <= t < rest.len() && rest[t] == k;
                    assert(keys[t + 1] == k);
                }
            }
        } else {
            let u2 = used.insert(keys[0]);
            lemma_fresh_keys(rest, u2);
            let f = fresh_keys(keys, used);
            let fr = fresh_keys(rest, u2);
            assert(f == seq![keys[0]] + fr);
            assert forall|k: u16| #[trigger]
                f.contains(k) <==> (keys.contains(k) && !used.contains(k)) by {
                if f.contains(k) {
                    let t = choose|t: int| 0 <= t < f.len() && f[t] == k;
                    if t > 0 {
                        assert(fr[t - 1] == k);
                        assert(fr.contains(k));
                        let r = choose|r: int| 0 <= r < rest.len() && rest[r] == k;
                        assert(keys[r + 1] == k);
                    } else {
                        assert(keys[0] == k);
                    }
                }
                if keys.contains(k) && !used.contains(k) {
                    let t = choose|t: int| 0 <= t < keys.len() && keys[t] == k;
                    if k == keys[0] {
                        assert(f[0] == k);
                    } else {
                        assert(t != 0);
                        assert(rest[t - 1] == k);
                        assert(fr.contains(k));
                        let r = choose|r: int| 0 <= r < fr.len() && fr[r] == k;
                        assert(f[r + 1] == k);
                    }
                }
            }
            assert forall|a: int, b: int| 0 <= a < f.len() && 0 <= b < f.len() && a != b implies f[a]
                != f[b] by {
                if a > 0 && b > 0 {
                    assert(f[a] == fr[a - 1]);
                    assert(f[b] == fr[b - 1]);
                } else if a == 0 {
                    assert(f[b] == fr[b - 1]);
                    assert(fr.contains(f[b]));
                } else {
                    assert(f[a] == fr[a - 1]);
                    assert(fr.contains(f[a]));
                }
            }
        }
    }
}

proof fn lemma_used_from_monotone(es: Seq<EffectModel>, i: int, j: int)
    requires
        0 <= i <= j,
    ensures
        used_from(es, j).subset_of(used_from(es, i)),
    decreases j - i,
{
    if i < j {
        lemma_used_from_monotone(es, i + 1, j);
    }
}

proof fn lemma_last_all_zones(es: Seq<EffectModel>, n: int)
    requires
        0 <= n <= es.len(),
    ensures
        last_all_zones(es, n) < n,
        last_all_zones(es, n) >= 0 ==> es[last_all_zones(es, n)].kind.is_all_zones(),
        forall|t: int|
            last_all_zones(es, n) < t < n ==> !(#[trigger] es[t]).kind.is_all_zones(),
    decreases n,
{
    if n > 0 {
        lemma_last_all_zones(es, n - 1);
    }
}

/// Keys of a surviving layer come from that layer, occur once and are claimed
/// by no layer above it.
pub proof fn lemma_survivor_keys(es: Seq<EffectModel>, i: int)
    requires
        0 <= i < es.len(),
        survivor(es, i) is Some,
    ensures
        survivor(es, i)->0.no_duplicates(),
        forall|k: u16| #[trigger]
            survivor(es, i)->0.contains(k) ==> es[i].keys.contains(k) && !used_from(
                es,
                i + 1,
            ).contains(k),
{
    if last_all_zones(es, es.len() as int) < 0 {
        lemma_fresh_keys(es[i].keys, used_from(es, i + 1));
    } else {
        assert(survivor(es, i)->0 =~= Seq::<u16>::empty());
    }
}

/// No zone is painted by two surviving layers.
pub proof fn lemma_survivors_disjoint(es: Seq<EffectModel>, i: int, j: int, k: u16)
    requires
        0 <= i < j < es.len(),
        survivor(es, i) is Some,
        survivor(es, j) is Some,
    ensures
        !(survivor(es, i)->0.contains(k) && survivor(es, j)->0.contains(k)),
{
    if last_all_zones(es, es.len() as int) < 0 {
        lemma_survivor_keys(es, i);
        lemma_survivor_keys(es, j);
        lemma_used_from_monotone(es, i + 1, j);
        if survivor(es, j)->0.contains(k) {
            // Layer `j` is kept, so its zones are among those claimed from `j` on.
            assert(used_from(es, j).contains(k));
        }
    }
}

/// Every zone claimed by a kept layer at or above `i` is painted by a
/// surviving layer at or above `i`, when no layer covers all zones.
pub proof fn lemma_survivors_cover(es: Seq<EffectModel>, i: int, k: u16)
    requires
        0 <= i <= es.len(),
        last_all_zones(es, es.len() as int) < 0,
        used_from(es, i).contains(k),
    ensures
        exists|t: int|
            i <= t < es.len() && #[trigger] survivor(es, t) is Some && survivor(es, t)->0.contains(k),
    decreases es.len() - i,
{
    let above = used_from(es, i + 1);
    if above.contains(k) {
        lemma_survivors_cover(es, i + 1, k);
        let t = choose|t: int|
            i + 1 <= t < es.len() && #[trigger] survivor(es, t) is Some && survivor(es, t)->0.contains(k);
        assert(i <= t);
    } else {
        lemma_fresh_keys(es[i].keys, above);
        let f = fresh_keys(es[i].keys, above);
        assert(f.contains(k));
        assert(survivor(es, i) == Some(f));
    }
}

/// A key-press layer survives with all its zones or not at all.
pub proof fn lemma_whole_keyboard_all_or_nothing(es: Seq<EffectModel>, i: int)
    requires
        0 <= i < es.len(),
        es[i].kind.is_whole_keyboard(),
        survivor(es, i) is Some,
    ensures
        survivor(es, i)->0.to_set() == es[i].keys.to_set(),
{
    lemma_last_all_zones(es, es.len() as int);
    let above = used_from(es, i + 1);
    lemma_fresh_keys(es[i].keys, above);
    assert forall|k: u16| es[i].keys.contains(k) implies !above.contains(k) by {
        let t = choose|t: int| 0 <= t < es[i].keys.len() && es[i].keys[t] == k;
        assert(!skipped(es[i], above));
    }
    assert(survivor(es, i)->0.to_set() =~= es[i].keys.to_set());
}

/// When some layer covers all zones, only the last such layer survives, and
/// with no zones.
pub proof fn lemma_all_zones_wins(es: Seq<EffectModel>, i: int, t: int)
    requires
        0 <= t < es.len(),
        es[t].kind.is_all_zones(),
        0 <= i < es.len(),
    ensures
        last_all_zones(es, es.len() as int) >= t,
        es[last_all_zones(es, es.len() as int)].kind.is_all_zones(),
        survivor(es, i) is Some <==> i == last_all_zones(es, es.len() as int),
        survivor(es, i) is Some ==> survivor(es, i)->0.len() == 0,
{
    lemma_last_all_zones(es, es.len() as int);
}

proof fn lemma_fresh_keys_len(keys: Seq<u16>, used: Set<u16>)
    ensures
        fresh_keys(keys, used).len() <= keys.len(),
    decreases keys.len(),
{
    if keys.len() > 0 {
        lemma_fresh_keys_len(keys.drop_first(), used);
        lemma_fresh_keys_len(keys.drop_first(), used.insert(keys[0]));
    }
}

/// A surviving layer keeps at most the zones it had, and an all-zones layer
/// only survives as itself.
pub proof fn lemma_survivor_len(es: Seq<EffectModel>, i: int)
    requires
        0 <= i < es.len(),
        survivor(es, i) is Some,
    ensures
        survivor(es, i)->0.len() <= es[i].keys.len(),
        last_all_zones(es, es.len() as int) >= 0 ==> es[i].kind.is_all_zones(),
        last_all_zones(es, es.len() as int) < 0 ==> !es[i].kind.is_all_zones(),
{
    lemma_last_all_zones(es, es.len() as int);
    if last_all_zones(es, es.len() as int) < 0 {
        lemma_fresh_keys_len(es[i].keys, used_from(es, i + 1));
        if es[i].kind.is_all_zones() {
            assert(last_all_zones(es, es.len() as int) >= i) by {
                lemma_all_zones_wins(es, i, i);
            }
        }
    }
}

/// The input layer that layer `a` of `compress_prefix(es, n)` comes from.
spec fn origin(es: Seq<EffectModel>, n: int, a: int) -> int
    decreases n,
{
    if n <= 0 {
        0
    } else if survivor(es, n - 1) is Some && a == compress_prefix(es, n - 1).len() {
        n - 1
    } else {
        origin(es, n - 1, a)
    }
}

proof fn lemma_origin(es: Seq<EffectModel>, n: int, a: int)
    requires
        0 <= n <= es.len(),
        0 <= a < compress_prefix(es, n).len(),
    ensures
        0 <= origin(es, n, a) < n,
        survivor(es, origin(es, n, a)) is Some,
        compress_prefix(es, n)[a] == with_keys(es[origin(es, n, a)], survivor(es, origin(es, n, a))->0),
        forall|b: int| a < b < compress_prefix(es, n).len() ==> origin(es, n, a) < #[trigger] origin(es, n, b),
    decreases n,
{
    let p = compress_prefix(es, n - 1);
    if survivor(es, n - 1) is Some && a == p.len() {
    } else {
        lemma_origin(es, n - 1, a);
        assert forall|b: int| a < b < compress_prefix(es, n).len() implies origin(es, n, a) < #[trigger] origin(
            es,
            n,
            b,
        ) by {
            if b < p.len() {
                lemma_origin(es, n - 1, b);
            }
        }
    }
}

/// No zone is painted by two layers of the compressed profile.
pub proof fn law_compress_disjoint(es: Seq<EffectModel>, a: int, b: int, k: u16)
    requires
        0 <= a < b < compress_spec(es).len(),
    ensures
        !(compress_spec(es)[a].keys.contains(k) && compress_spec(es)[b].keys.contains(k)),
{
    let n = es.len() as int;
    lemma_origin(es, n, a);
    lemma_origin(es, n, b);
    lemma_survivors_disjoint(es, origin(es, n, a), origin(es, n, b), k);
}

/// With an all-zones layer, only the last one survives, with no zones.
proof fn lemma_compress_prefix_top(es: Seq<EffectModel>, n: int)
    requires
        0 <= n <= es.len(),
        last_all_zones(es, es.len() as int) >= 0,
    ensures
        compress_prefix(es, n) == (if n > last_all_zones(es, es.len() as int) {
            seq![with_keys(es[last_all_zones(es, es.len() as int)], Seq::empty())]
        } else {
            Seq::empty()
        }),
    decreases n,
{
    let top = last_all_zones(es, es.len() as int);
    lemma_last_all_zones(es, es.len() as int);
    if n > 0 {
        lemma_compress_prefix_top(es, n - 1);
        lemma_all_zones_wins(es, n - 1, top);
        if n - 1 == top {
            assert(Seq::<EffectModel>::empty().push(with_keys(es[top], Seq::empty())) =~= seq![
                with_keys(es[top], Seq::empty()),
            ]);
        }
    }
}

/// Keys with no repeats and none in `used` are all fresh.
proof fn lemma_fresh_keys_all(keys: Seq<u16>, used: Set<u16>)
    requires
        keys.no_duplicates(),
        forall|t: int| 0 <= t < keys.len() ==> !used.contains(#[trigger] keys[t]),
    ensures
        fresh_keys(keys, used) == keys,
    decreases keys.len(),
{
    if keys.len() > 0 {
        let rest = keys.drop_first();
        assert forall|t: int| 0 <= t < rest.len() implies !used.insert(keys[0]).contains(
            #[trigger] rest[t],
        ) by {
            assert(rest[t] == keys[t + 1]);
        }
        lemma_fresh_keys_all(rest, used.insert(keys[0]));
        assert(seq![keys[0]] + rest =~= keys);
    }
}

/// Layers with zones, none on all zones, each zone once and in one layer
/// only: each layer keeps all of its zones.
proof fn lemma_compress_keeps_all(c: Seq<EffectModel>, n: int)
    requires
        0 <= n <= c.len(),
        forall|i: int| 0 <= i < c.len() ==> !(#[trigger] c[i]).kind.is_all_zones(),
        forall|i: int| 0 <= i < c.len() ==> (#[trigger] c[i]).keys.len() > 0 && c[i].keys.no_duplicates(),
        forall|i: int, j: int, k: u16|
            0 <= i < j < c.len() ==> !(#[trigger] c[i].keys.contains(k) && #[trigger] c[j].keys.contains(k)),
    ensures
        compress_prefix(c, n) == c.take(n),
    decreases n,
{
    if n > 0 {
        lemma_compress_keeps_all(c, n - 1);
        let i = n - 1;
        lemma_last_all_zones(c, c.len() as int);
        lemma_used_from_keys(c, i + 1);
        let above = used_from(c, i + 1);
        assert forall|t: int| 0 <= t < c[i].keys.len() implies !above.contains(#[trigger] c[i].keys[t]) by {
            let k = c[i].keys[t];
            assert(c[i].keys.contains(k));
            if above.contains(k) {
                let j = choose|j: int| i + 1 <= j < c.len() && c[j].keys.contains(k);
                assert(!(c[i].keys.contains(k) && c[j].keys.contains(k)));
            }
        }
        lemma_fresh_keys_all(c[i].keys, above);
        assert(with_keys(c[i], c[i].keys) == c[i]);
        assert(c.take(n - 1).push(c[i]) =~= c.take(n));
    }
}

/// Zones claimed from layer `i` on, when no layer is dropped: those of the
/// layers `i..`.
proof fn lemma_used_from_keys(c: Seq<EffectModel>, i: int)
    requires
        0 <= i <= c.len(),
        forall|t: int, j: int, k: u16|
            0 <= t < j < c.len() ==> !(#[trigger] c[t].keys.contains(k) && #[trigger] c[j].keys.contains(k)),
    ensures
        forall|k: u16| #[trigger]
            used_from(c, i).contains(k) <==> exists|j: int| i <= j < c.len() && c[j].keys.contains(k),
    decreases c.len() - i,
{
    if i < c.len() {
        lemma_used_from_keys(c, i + 1);
        let above = used_from(c, i + 1);
        if skipped(c[i], above) {
            let t = choose|t: int| 0 <= t < c[i].keys.len() && above.contains(c[i].keys[t]);
            let k = c[i].keys[t];
            assert(c[i].keys.contains(k));
            let j = choose|j: int| i + 1 <= j < c.len() && c[j].keys.contains(k);
            assert(false);
        }
        assert forall|k: u16| #[trigger]
            used_from(c, i).contains(k) <==> exists|j: int| i <= j < c.len() && c[j].keys.contains(k) by {
            if c[i].keys.contains(k) {
                assert(c[i].keys.to_set().contains(k));
            }
            if c[i].keys.to_set().contains(k) {
                assert(c[i].keys.contains(k));
            }
        }
    }
}

/// Compressing a compressed profile changes nothing.
pub proof fn law_compress_idempotent(es: Seq<EffectModel>)
    ensures
        compress_spec(compress_spec(es)) == compress_spec(es),
{
    let c = compress_spec(es);
    let n = es.len() as int;
    if last_all_zones(es, n) >= 0 {
        let top = last_all_zones(es, n);
        lemma_compress_prefix_top(es, n);
        lemma_last_all_zones(es, n);
        assert(c[0].kind.is_all_zones());
        assert(last_all_zones(c, 1) == 0);
        assert(survivor(c, 0) == Some(Seq::<u16>::empty()));
        assert(c[0].keys =~= Seq::<u16>::empty());
        assert(with_keys(c[0], Seq::empty()) == c[0]);
        assert(compress_prefix(c, 0) =~= Seq::<EffectModel>::empty());
        assert(compress_prefix(c, 1) =~= c);
    } else {
        assert forall|i: int| 0 <= i < c.len() implies !(#[trigger] c[i]).kind.is_all_zones() && c[i].keys.len()
            > 0 && c[i].keys.no_duplicates() by {
            lemma_origin(es, n, i);
            lemma_survivor_len(es, origin(es, n, i));
            lemma_survivor_keys(es, origin(es, n, i));
        }
        assert forall|i: int, j: int, k: u16|
            0 <= i < j < c.len() implies !(#[trigger] c[i].keys.contains(k) && #[trigger] c[j].keys.contains(k)) by {
            law_compress_disjoint(es, i, j, k);
        }
        lemma_compress_keeps_all(c, c.len() as int);
        assert(c.take(c.len() as int) =~= c);
    }
}

/// A layer of the compressed profile that covers all zones names none.
pub proof fn law_compress_all_zones_empty(es: Seq<EffectModel>, a: int)
    requires
        0 <= a < compress_spec(es).len(),
        compress_spec(es)[a].kind.is_all_zones(),
    ensures
        compress_spec(es)[a].keys.len() == 0,
{
    let n = es.len() as int;
    lemma_origin(es, n, a);
    let i = origin(es, n, a);
    lemma_survivor_len(es, i);
    lemma_last_all_zones(es, n);
    lemma_all_zones_wins(es, i, i);
}

} // verus!
