//! Auto-apply of the custom mode's values (power limits, fan speeds). The
//! firmware keeps them only until a reboot, and the fan speeds only until
//! sleep, so the user service `linux-legion --daemon` applies the saved
//! values at login, on a switch to the custom mode and after resume.
//!
//! The values live in `~/.config/linux-legion/custom.conf`:
//!
//! ```text
//! tunable.ppt_pl1_spl=95
//! fan.1=3000
//! ```

use vstd::prelude::*;

use crate::hw::power::PowerMode;
use crate::scan::{
    ascii_bytes, chars_of, find_char, find_in, is_digit, is_white, lemma_decimal_reads_back,
    lemma_find_char, lemma_lex_irreflexive, lemma_lex_total, lemma_lex_transitive,
    lemma_signed_reads_back, lemma_unsigned_reads_back, lex_lt, parse_int, parse_uint,
    starts_with_lit, str_is, str_lt, trim, trim_end, trim_range, trim_start,
};
use crate::hw::sysfs::text;
use crate::text::{
    decimal_spec, parse_i64_spec, parse_unsigned_spec, push_decimal, push_signed_decimal,
    signed_decimal_spec,
};

verus! {

pub const UNIT: &'static str = "linux-legion-autoapply.service";

/// The names are in strictly increasing order.
pub open spec fn names_sorted(v: Seq<(String, i64)>) -> bool {
    forall|i: int, j: int| 0 <= i < j < v.len() ==> lex_lt(#[trigger] v[i].0@, #[trigger] v[j].0@)
}

/// The fan numbers are in strictly increasing order.
pub open spec fn indices_sorted(v: Seq<(u8, u32)>) -> bool {
    forall|i: int, j: int| 0 <= i < j < v.len() ==> #[trigger] v[i].0 < #[trigger] v[j].0
}

/// The map that the entries `v` make, a later entry replacing an earlier
/// one of the same name.
pub open spec fn tunable_map(v: Seq<(String, i64)>) -> Map<Seq<char>, i64>
    decreases v.len(),
{
    if v.len() == 0 {
        Map::empty()
    } else {
        tunable_map(v.drop_last()).insert(v.last().0@, v.last().1)
    }
}

pub open spec fn fan_map(v: Seq<(u8, u32)>) -> Map<u8, u32>
    decreases v.len(),
{
    if v.len() == 0 {
        Map::empty()
    } else {
        fan_map(v.drop_last()).insert(v.last().0, v.last().1)
    }
}

proof fn lemma_tunable_map(v: Seq<(String, i64)>)
    requires
        names_sorted(v),
    ensures
        forall|k: Seq<char>|
            tunable_map(v).dom().contains(k) <==> exists|i: int|
                0 <= i < v.len() && #[trigger] v[i].0@ == k,
        forall|i: int| 0 <= i < v.len() ==> tunable_map(v)[#[trigger] v[i].0@] == v[i].1,
    decreases v.len(),
{
    if v.len() > 0 {
        let w = v.drop_last();
        assert(names_sorted(w));
        lemma_tunable_map(w);
        assert forall|k: Seq<char>|
            tunable_map(v).dom().contains(k) implies exists|i: int|
                0 <= i < v.len() && #[trigger] v[i].0@ == k by {
            if k != v.last().0@ {
                assert(tunable_map(w).dom().contains(k));
                let i = choose|i: int| 0 <= i < w.len() && #[trigger] w[i].0@ == k;
                assert(w[i] == v[i]);
                assert(v[i].0@ == k);
            } else {
                assert(v[v.len() - 1].0@ == k);
            }
        }
        assert forall|i: int| 0 <= i < v.len() implies tunable_map(v)[#[trigger] v[i].0@]
            == v[i].1 by {
            if i < v.len() - 1 {
                assert(lex_lt(v[i].0@, v[v.len() - 1].0@));
                lemma_lex_irreflexive(v[i].0@);
                assert(w[i] == v[i]);
            }
        }
        assert forall|k: Seq<char>|
            (exists|i: int| 0 <= i < v.len() && #[trigger] v[i].0@ == k) implies tunable_map(
            v,
        ).dom().contains(k) by {
            let i = choose|i: int| 0 <= i < v.len() && #[trigger] v[i].0@ == k;
            if i < v.len() - 1 {
                assert(w[i] == v[i]);
            }
        }
    }
}

proof fn lemma_fan_map(v: Seq<(u8, u32)>)
    requires
        indices_sorted(v),
    ensures
        forall|k: u8|
            fan_map(v).dom().contains(k) <==> exists|i: int|
                0 <= i < v.len() && #[trigger] v[i].0 == k,
        forall|i: int| 0 <= i < v.len() ==> fan_map(v)[#[trigger] v[i].0] == v[i].1,
    decreases v.len(),
{
    if v.len() > 0 {
        let w = v.drop_last();
        assert(indices_sorted(w));
        lemma_fan_map(w);
        assert forall|k: u8|
            fan_map(v).dom().contains(k) implies exists|i: int|
                0 <= i < v.len() && #[trigger] v[i].0 == k by {
            if k != v.last().0 {
                assert(fan_map(w).dom().contains(k));
                let i = choose|i: int| 0 <= i < w.len() && #[trigger] w[i].0 == k;
                assert(w[i] == v[i]);
                assert(v[i].0 == k);
            } else {
                assert(v[v.len() - 1].0 == k);
            }
        }
        assert forall|i: int| 0 <= i < v.len() implies fan_map(v)[#[trigger] v[i].0] == v[i].1 by {
            if i < v.len() - 1 {
                assert(v[i].0 < v[v.len() - 1].0);
                assert(w[i] == v[i]);
            }
        }
        assert forall|k: u8|
            (exists|i: int| 0 <= i < v.len() && #[trigger] v[i].0 == k) implies fan_map(
            v,
        ).dom().contains(k) by {
            let i = choose|i: int| 0 <= i < v.len() && #[trigger] v[i].0 == k;
            if i < v.len() - 1 {
                assert(w[i] == v[i]);
            }
        }
    }
}

/// The saved values of the custom mode: power limits by name and fan
/// speeds by fan number (0 is automatic), each kept in increasing order.
#[derive(Clone, Debug, PartialEq, Eq)]
pub struct Saved {
    pub tunables: Vec<(String, i64)>,
    pub fans: Vec<(u8, u32)>,
}

impl View for Saved {
    type V = (Map<Seq<char>, i64>, Map<u8, u32>);

    open spec fn view(&self) -> (Map<Seq<char>, i64>, Map<u8, u32>) {
        (tunable_map(self.tunables@), fan_map(self.fans@))
    }
}

impl Default for Saved {
    fn default() -> (s: Saved)
        ensures
            s.wf(),
            s@.0 == Map::<Seq<char>, i64>::empty(),
            s@.1 == Map::<u8, u32>::empty(),
    {
        Saved { tunables: Vec::new(), fans: Vec::new() }
    }
}

impl Saved {
    /// Each name and each fan number occurs once, in increasing order.
    pub open spec fn wf(&self) -> bool {
        names_sorted(self.tunables@) && indices_sorted(self.fans@)
    }

    /// Saves `value` for the power limit `name`.
    pub fn remember_tunable(&mut self, name: &str, value: i64)
        requires
            old(self).wf(),
        ensures
            final(self).wf(),
            final(self)@.0 == old(self)@.0.insert(name@, value),
            final(self)@.1 == old(self)@.1,
            final(self).fans == old(self).fans,
    {
        let ghost v = self.tunables@;
        let mut p: usize = 0;
        while p < self.tunables.len() && str_lt(self.tunables[p].0.as_str(), name)
            invariant
                p <= v.len(),
                self.tunables@ == v,
                forall|j: int| 0 <= j < p ==> lex_lt(#[trigger] v[j].0@, name@),
            decreases v.len() - p,
        {
            p = p + 1;
        }
        proof {
            lemma_tunable_map(v);
        }
        if p < self.tunables.len() && !str_lt(name, self.tunables[p].0.as_str()) {
            proof {
                if v[p as int].0@ != name@ {
                    lemma_lex_total(v[p as int].0@, name@);
                }
            }
            self.tunables.set(p, (name.to_owned(), value));
            let ghost w = self.tunables@;
            assert(w == v.update(p as int, w[p as int]));
            assert(names_sorted(w)) by {
                assert forall|i: int, j: int| 0 <= i < j < w.len() implies lex_lt(
                    #[trigger] w[i].0@,
                    #[trigger] w[j].0@,
                ) by {
                    assert(lex_lt(v[i].0@, v[j].0@));
                }
            }
            proof {
                lemma_tunable_map(w);
                assert(forall|i: int| 0 <= i < w.len() ==> #[trigger] w[i].0@ == v[i].0@);
                assert(v[p as int].0@ == name@);
                assert(tunable_map(w) =~= tunable_map(v).insert(name@, value)) by {
                    assert forall|k: Seq<char>| #[trigger]
                        tunable_map(w).dom().contains(k) == tunable_map(v).insert(
                            name@,
                            value,
                        ).dom().contains(k) by {
                        if tunable_map(v).dom().contains(k) {
                            let i = choose|i: int| 0 <= i < v.len() && #[trigger] v[i].0@ == k;
                            assert(w[i].0@ == k);
                        }
                        if tunable_map(w).dom().contains(k) {
                            let i = choose|i: int| 0 <= i < w.len() && #[trigger] w[i].0@ == k;
                            assert(v[i].0@ == k);
                        }
                        if k == name@ {
                            assert(w[p as int].0@ == k);
                        }
                    }
                    assert forall|k: Seq<char>| #[trigger]
                        tunable_map(w).dom().contains(k) implies tunable_map(w)[k]
                        == tunable_map(v).insert(name@, value)[k] by {
                        let i = choose|i: int| 0 <= i < w.len() && #[trigger] w[i].0@ == k;
                        if i != p {
                            assert(v[i] == w[i]);
                            assert(lex_lt(v[i].0@, v[p as int].0@) || lex_lt(v[p as int].0@, v[i].0@));
                            lemma_lex_irreflexive(name@);
                        }
                    }
                }
            }
        } else {
            proof {
                if p < v.len() {
                    lemma_lex_total(v[p as int].0@, name@);
                }
            }
            self.tunables.insert(p, (name.to_owned(), value));
            let ghost w = self.tunables@;
            assert(w == v.insert(p as int, w[p as int]));
            assert(names_sorted(w)) by {
                assert forall|i: int, j: int| 0 <= i < j < w.len() implies lex_lt(
                    #[trigger] w[i].0@,
                    #[trigger] w[j].0@,
                ) by {
                    if j < p {
                        assert(lex_lt(v[i].0@, v[j].0@));
                    } else if j == p {
                        assert(lex_lt(v[i].0@, name@));
                    } else if i == p {
                        if j - 1 > p {
                            assert(lex_lt(v[p as int].0@, v[j - 1].0@));
                            lemma_lex_transitive(name@, v[p as int].0@, v[j - 1].0@);
                        }
                    } else if i < p {
                        assert(lex_lt(v[i].0@, name@));
                        assert(lex_lt(name@, v[p as int].0@));
                        if j - 1 > p {
                            assert(lex_lt(v[p as int].0@, v[j - 1].0@));
                            lemma_lex_transitive(name@, v[p as int].0@, v[j - 1].0@);
                        }
                        lemma_lex_transitive(v[i].0@, name@, v[j - 1].0@);
                    } else {
                        assert(lex_lt(v[i - 1].0@, v[j - 1].0@));
                    }
                }
            }
            proof {
                lemma_tunable_map(w);
                assert(tunable_map(w) =~= tunable_map(v).insert(name@, value)) by {
                    assert forall|k: Seq<char>| #[trigger]
                        tunable_map(w).dom().contains(k) == tunable_map(v).insert(
                            name@,
                            value,
                        ).dom().contains(k) by {
                        if tunable_map(v).dom().contains(k) {
                            let i = choose|i: int| 0 <= i < v.len() && #[trigger] v[i].0@ == k;
                            if i < p {
                                assert(w[i].0@ == k);
                            } else {
                                assert(w[i + 1].0@ == k);
                            }
                        }
                        if tunable_map(w).dom().contains(k) {
                            let i = choose|i: int| 0 <= i < w.len() && #[trigger] w[i].0@ == k;
                            if i < p {
                                assert(v[i].0@ == k);
                            } else if i > p {
                                assert(v[i - 1].0@ == k);
                            }
                        }
                        if k == name@ {
                            assert(w[p as int].0@ == k);
                        }
                    }
                    assert forall|k: Seq<char>| #[trigger]
                        tunable_map(w).dom().contains(k) implies tunable_map(w)[k]
                        == tunable_map(v).insert(name@, value)[k] by {
                        let i = choose|i: int| 0 <= i < w.len() && #[trigger] w[i].0@ == k;
                        if i < p {
                            assert(v[i] == w[i]);
                            assert(lex_lt(v[i].0@, name@));
                            lemma_lex_irreflexive(name@);
                        } else if i > p {
                            assert(v[i - 1] == w[i]);
                            assert(lex_lt(w[p as int].0@, w[i].0@));
                            lemma_lex_irreflexive(name@);
                        }
                    }
                }
            }
        }
    }

    /// Saves the speed `rpm` for fan `index`.
    pub fn remember_fan(&mut self, index: u8, rpm: u32)
        requires
            old(self).wf(),
        ensures
            final(self).wf(),
            final(self)@.1 == old(self)@.1.insert(index, rpm),
            final(self)@.0 == old(self)@.0,
            final(self).tunables == old(self).tunables,
    {
        let ghost v = self.fans@;
        let mut p: usize = 0;
        while p < self.fans.len() && self.fans[p].0 < index
            invariant
                p <= v.len(),
                self.fans@ == v,
                forall|j: int| 0 <= j < p ==> #[trigger] v[j].0 < index,
            decreases v.len() - p,
        {
            p = p + 1;
        }
        proof {
            lemma_fan_map(v);
        }
        if p < self.fans.len() && self.fans[p].0 == index {
            self.fans.set(p, (index, rpm));
            let ghost w = self.fans@;
            assert(forall|i: int| 0 <= i < w.len() ==> #[trigger] w[i].0 == v[i].0);
            assert(indices_sorted(w));
            proof {
                lemma_fan_map(w);
                assert(fan_map(w) =~= fan_map(v).insert(index, rpm)) by {
                    assert forall|k: u8| #[trigger]
                        fan_map(w).dom().contains(k) == fan_map(v).insert(index, rpm).dom().contains(k) by {
                        if fan_map(v).dom().contains(k) {
                            let i = choose|i: int| 0 <= i < v.len() && #[trigger] v[i].0 == k;
                            assert(w[i].0 == k);
                        }
                        if fan_map(w).dom().contains(k) {
                            let i = choose|i: int| 0 <= i < w.len() && #[trigger] w[i].0 == k;
                            assert(v[i].0 == k);
                        }
                        if k == index {
                            assert(w[p as int].0 == k);
                        }
                    }
                    assert forall|k: u8| #[trigger] fan_map(w).dom().contains(k) implies fan_map(w)[k]
                        == fan_map(v).insert(index, rpm)[k] by {
                        let i = choose|i: int| 0 <= i < w.len() && #[trigger] w[i].0 == k;
                        if i != p {
                            assert(v[i] == w[i]);
                            assert(v[i].0 < v[p as int].0 || v[p as int].0 < v[i].0);
                        }
                    }
                }
            }
        } else {
            self.fans.insert(p, (index, rpm));
            let ghost w = self.fans@;
            assert(w == v.insert(p as int, (index, rpm)));
            assert(indices_sorted(w)) by {
                assert forall|i: int, j: int| 0 <= i < j < w.len() implies #[trigger] w[i].0
                    < #[trigger] w[j].0 by {
                    if j < p {
                        assert(v[i].0 < v[j].0);
                    } else if i > p {
                        assert(v[i - 1].0 < v[j - 1].0);
                    } else if i < p && j > p {
                        assert(v[i].0 < v[j - 1].0);
                    } else if i == p && j > p + 1 {
                        assert(v[p as int].0 < v[j - 1].0);
                    }
                }
            }
            proof {
                lemma_fan_map(w);
                assert(fan_map(w) =~= fan_map(v).insert(index, rpm)) by {
                    assert forall|k: u8| #[trigger]
                        fan_map(w).dom().contains(k) == fan_map(v).insert(index, rpm).dom().contains(k) by {
                        if fan_map(v).dom().contains(k) {
                            let i = choose|i: int| 0 <= i < v.len() && #[trigger] v[i].0 == k;
                            if i < p {
                                assert(w[i].0 == k);
                            } else {
                                assert(w[i + 1].0 == k);
                            }
                        }
                        if fan_map(w).dom().contains(k) {
                            let i = choose|i: int| 0 <= i < w.len() && #[trigger] w[i].0 == k;
                            if i < p {
                                assert(v[i].0 == k);
                            } else if i > p {
                                assert(v[i - 1].0 == k);
                            }
                        }
                        if k == index {
                            assert(w[p as int].0 == k);
                        }
                    }
                    assert forall|k: u8| #[trigger] fan_map(w).dom().contains(k) implies fan_map(w)[k]
                        == fan_map(v).insert(index, rpm)[k] by {
                        let i = choose|i: int| 0 <= i < w.len() && #[trigger] w[i].0 == k;
                        if i < p {
                            assert(v[i] == w[i]);
                        } else if i > p {
                            assert(v[i - 1] == w[i]);
                        }
                    }
                }
            }
        }
    }

    /// The saved value of the power limit `name`.
    pub fn tunable(&self, name: &str) -> (r: Option<i64>)
        requires
            self.wf(),
        ensures
            r == (if self@.0.dom().contains(name@) {
                Some(self@.0[name@])
            } else {
                None
            }),
    {
        proof {
            lemma_tunable_map(self.tunables@);
        }
        let mut i: usize = 0;
        while i < self.tunables.len()
            invariant
                self.wf(),
                i <= self.tunables@.len(),
                forall|j: int| 0 <= j < i ==> #[trigger] self.tunables@[j].0@ != name@,
            decreases self.tunables@.len() - i,
        {
            if !str_lt(self.tunables[i].0.as_str(), name) && !str_lt(
                name,
                self.tunables[i].0.as_str(),
            ) {
                proof {
                    if self.tunables@[i as int].0@ != name@ {
                        lemma_lex_total(self.tunables@[i as int].0@, name@);
                    }
                    assert(self.tunables@[i as int].0@ == name@);
                    lemma_tunable_map(self.tunables@);
                }
                return Some(self.tunables[i].1);
            }
            proof {
                if self.tunables@[i as int].0@ == name@ {
                    lemma_lex_irreflexive(name@);
                }
            }
            i = i + 1;
        }
        None
    }

    /// The saved speed of fan `index`.
    pub fn fan(&self, index: u8) -> (r: Option<u32>)
        requires
            self.wf(),
        ensures
            r == (if self@.1.dom().contains(index) {
                Some(self@.1[index])
            } else {
                None
            }),
    {
        proof {
            lemma_fan_map(self.fans@);
        }
        let mut i: usize = 0;
        while i < self.fans.len()
            invariant
                self.wf(),
                i <= self.fans@.len(),
                forall|j: int| 0 <= j < i ==> #[trigger] self.fans@[j].0 != index,
            decreases self.fans@.len() - i,
        {
            if self.fans[i].0 == index {
                assert(self.fans@[i as int].0 == index);
                proof {
                    lemma_fan_map(self.fans@);
                }
                return Some(self.fans[i].1);
            }
            i = i + 1;
        }
        None
    }
}


/// `s` begins with `p`.
pub open spec fn has_prefix(s: Seq<char>, p: Seq<char>) -> bool {
    s.len() >= p.len() && s.subrange(0, p.len() as int) == p
}

/// The values after reading the line `l` of the file on top of `acc`:
/// white space around the line, around the key and around the value is
/// ignored; empty lines, lines starting with `#`, lines without `=` and
/// lines whose key or value does not read are skipped.
pub open spec fn parse_line(l: Seq<char>, acc: (Map<Seq<char>, i64>, Map<u8, u32>)) -> (
    Map<Seq<char>, i64>,
    Map<u8, u32>,
) {
    let t = trim(l);
    if t.len() == 0 || t[0] == '#' {
        acc
    } else {
        let e = find_char(t, '=', 0);
        if e >= t.len() {
            acc
        } else {
            let k = trim(t.subrange(0, e));
            let v = trim(t.subrange(e + 1, t.len() as int));
            if has_prefix(k, "tunable."@) {
                match parse_i64_spec(ascii_bytes(v)) {
                    Some(n) => (
                        acc.0.insert(k.subrange("tunable."@.len() as int, k.len() as int), n as i64),
                        acc.1,
                    ),
                    None => acc,
                }
            } else if has_prefix(k, "fan."@) {
                match (
                    parse_unsigned_spec(
                        ascii_bytes(k.subrange("fan."@.len() as int, k.len() as int)),
                        10,
                        0xFF,
                    ),
                    parse_unsigned_spec(ascii_bytes(v), 10, 0xFFFF_FFFF),
                ) {
                    (Some(i), Some(r)) => (acc.0, acc.1.insert(i as u8, r as u32)),
                    _ => acc,
                }
            } else {
                acc
            }
        }
    }
}

/// The values after reading the lines of `t`, separated by `\n`, in order.
pub open spec fn parse_text(t: Seq<char>, acc: (Map<Seq<char>, i64>, Map<u8, u32>)) -> (
    Map<Seq<char>, i64>,
    Map<u8, u32>,
)
    decreases t.len(),
{
    let e = find_char(t, '\n', 0);
    proof {
        lemma_find_char(t, '\n', 0);
    }
    let next = parse_line(t.subrange(0, e), acc);
    if e >= t.len() {
        next
    } else {
        parse_text(t.subrange(e + 1, t.len() as int), next)
    }
}

/// The values that the text of the file holds.
pub open spec fn parse_spec(text: Seq<char>) -> (Map<Seq<char>, i64>, Map<u8, u32>) {
    parse_text(text, (Map::empty(), Map::empty()))
}

/// Reads the line `cs[from..to]` into `s`.
fn parse_line_into(cs: &Vec<char>, text: &str, from: usize, to: usize, s: &mut Saved)
    requires
        from <= to <= cs@.len(),
        cs@ == text@,
        old(s).wf(),
    ensures
        final(s).wf(),
        final(s)@ == parse_line(cs@.subrange(from as int, to as int), old(s)@),
{
    let ghost l = cs@.subrange(from as int, to as int);
    let ghost acc = s@;
    let (a, b) = trim_range(cs, from, to);
    let ghost t = cs@.subrange(a as int, b as int);
    assert(t == trim(l));
    if a == b || cs[a] == '#' {
        assert(parse_line(l, acc) == acc);
        return;
    }
    let eq = find_in(cs, a, b, '=');
    if eq == b {
        assert(parse_line(l, acc) == acc);
        return;
    }
    proof {
        lemma_find_char(t, '=', 0);
    }
    let (ka, kb) = trim_range(cs, a, eq);
    let (va, vb) = trim_range(cs, eq + 1, b);
    assert(cs@.subrange(a as int, eq as int) =~= t.subrange(0, eq - a));
    assert(cs@.subrange(eq + 1, b as int) =~= t.subrange(eq - a + 1, t.len() as int));
    let ghost k = cs@.subrange(ka as int, kb as int);
    let ghost v = cs@.subrange(va as int, vb as int);
    let tl = chars_of("tunable.").len();
    let fl = chars_of("fan.").len();
    if starts_with_lit(cs, ka, kb, "tunable.") {
        assert(k.subrange(0, tl as int) =~= cs@.subrange(ka as int, ka + tl));
        match parse_int(cs, va, vb) {
            Some(n) => {
                let name = text.substring_char(ka + tl, kb);
                assert(name@ =~= k.subrange(tl as int, k.len() as int));
                s.remember_tunable(name, n);
                assert(s@ == parse_line(l, acc));
            },
            None => {
                assert(parse_line(l, acc) == acc);
            },
        }
    } else if starts_with_lit(cs, ka, kb, "fan.") {
        proof {
            if has_prefix(k, "tunable."@) {
                assert(k.subrange(0, tl as int) =~= cs@.subrange(ka as int, ka + tl));
            }
        }
        assert(k.subrange(0, fl as int) =~= cs@.subrange(ka as int, ka + fl));
        assert(cs@.subrange(ka + fl, kb as int) =~= k.subrange(fl as int, k.len() as int));
        match (parse_uint(cs, ka + fl, kb, 0xFF), parse_uint(cs, va, vb, 0xFFFF_FFFF)) {
            (Some(i), Some(r)) => {
                s.remember_fan(i as u8, r as u32);
                assert(s@ == parse_line(l, acc));
            },
            _ => {
                assert(parse_line(l, acc) == acc);
            },
        }
    } else {
        proof {
            if has_prefix(k, "tunable."@) {
                assert(k.subrange(0, tl as int) =~= cs@.subrange(ka as int, ka + tl));
            }
            if has_prefix(k, "fan."@) {
                assert(k.subrange(0, fl as int) =~= cs@.subrange(ka as int, ka + fl));
            }
        }
        assert(parse_line(l, acc) == acc);
    }
}

impl Saved {
    /// The values in the text of the file.
    pub fn parse(text: &str) -> (s: Saved)
        ensures
            s.wf(),
            s@ == parse_spec(text@),
    {
        let cs = chars_of(text);
        let n = cs.len();
        let mut s = Saved::default();
        let mut i: usize = 0;
        assert(cs@.subrange(0, n as int) =~= cs@);
        loop
            invariant
                i <= n == cs@.len(),
                cs@ == text@,
                s.wf(),
                parse_text(cs@.subrange(i as int, n as int), s@) == parse_spec(cs@),
            decreases n - i,
        {
            let ghost rest = cs@.subrange(i as int, n as int);
            let e = find_in(&cs, i, n, '\n');
            proof {
                lemma_find_char(rest, '\n', 0);
            }
            assert(rest.subrange(0, e - i) =~= cs@.subrange(i as int, e as int));
            parse_line_into(&cs, text, i, e, &mut s);
            if e >= n {
                return s;
            }
            assert(rest.subrange(e - i + 1, rest.len() as int) =~= cs@.subrange(e + 1, n as int));
            i = e + 1;
        }
    }
}


/// The first line of the file.
pub open spec fn header_text() -> Seq<char> {
    "# linux-legion: значения режима «Свой», применяются автоматически"@
}

pub open spec fn tunable_line(k: Seq<char>, v: i64) -> Seq<char> {
    "tunable."@ + k + "="@ + signed_decimal_spec(v as int) + "\n"@
}

pub open spec fn tunable_lines(v: Seq<(String, i64)>) -> Seq<char>
    decreases v.len(),
{
    if v.len() == 0 {
        seq![]
    } else {
        tunable_lines(v.drop_last()) + tunable_line(v.last().0@, v.last().1)
    }
}

pub open spec fn fan_line(i: u8, r: u32) -> Seq<char> {
    "fan."@ + decimal_spec(i as nat) + "="@ + decimal_spec(r as nat) + "\n"@
}

pub open spec fn fan_lines(v: Seq<(u8, u32)>) -> Seq<char>
    decreases v.len(),
{
    if v.len() == 0 {
        seq![]
    } else {
        fan_lines(v.drop_last()) + fan_line(v.last().0, v.last().1)
    }
}

/// The text of the file for the entries `t` and `f`: a comment line, then
/// one `tunable.<name>=<value>` line per power limit and one
/// `fan.<number>=<speed>` line per fan, in their order.
pub open spec fn render_spec(t: Seq<(String, i64)>, f: Seq<(u8, u32)>) -> Seq<char> {
    header_text() + "\n"@ + tunable_lines(t) + fan_lines(f)
}

impl Saved {
    /// The text of the file that holds these values.
    pub fn render(&self) -> (r: String)
        ensures
            r@ == render_spec(self.tunables@, self.fans@),
    {
        let mut out = String::new();
        out.append("# linux-legion: значения режима «Свой», применяются автоматически");
        out.append("\n");
        let ghost head = out@;
        let mut i: usize = 0;
        assert(self.tunables@.subrange(0, 0) =~= Seq::<(String, i64)>::empty());
        while i < self.tunables.len()
            invariant
                i <= self.tunables@.len(),
                head == header_text() + "\n"@,
                out@ == head + tunable_lines(self.tunables@.subrange(0, i as int)),
            decreases self.tunables@.len() - i,
        {
            let ghost before = out@;
            out.append("tunable.");
            out.append(self.tunables[i].0.as_str());
            out.append("=");
            push_signed_decimal(&mut out, self.tunables[i].1);
            out.append("\n");
            assert(self.tunables@.subrange(0, i + 1).drop_last() =~= self.tunables@.subrange(
                0,
                i as int,
            ));
            assert(out@ =~= before + tunable_line(self.tunables@[i as int].0@, self.tunables@[i as int].1));
            i = i + 1;
        }
        assert(self.tunables@.subrange(0, i as int) =~= self.tunables@);
        let ghost mid = out@;
        let mut j: usize = 0;
        assert(self.fans@.subrange(0, 0) =~= Seq::<(u8, u32)>::empty());
        assert(mid + fan_lines(self.fans@.subrange(0, 0)) =~= mid);
        while j < self.fans.len()
            invariant
                j <= self.fans@.len(),
                out@ == mid + fan_lines(self.fans@.subrange(0, j as int)),
            decreases self.fans@.len() - j,
        {
            let ghost before = out@;
            out.append("fan.");
            push_decimal(&mut out, self.fans[j].0 as u64);
            out.append("=");
            push_decimal(&mut out, self.fans[j].1 as u64);
            out.append("\n");
            assert(self.fans@.subrange(0, j + 1).drop_last() =~= self.fans@.subrange(
                0,
                j as int,
            ));
            assert(out@ =~= before + fan_line(self.fans@[j as int].0, self.fans@[j as int].1));
            j = j + 1;
        }
        assert(self.fans@.subrange(0, j as int) =~= self.fans@);
        assert(out@ =~= render_spec(self.tunables@, self.fans@));
        out
    }
}

/// A power-limit name that the file keeps: no `=`, no line break, and no
/// white space at its end.
pub open spec fn valid_name(k: Seq<char>) -> bool {
    &&& forall|j: int| 0 <= j < k.len() ==> #[trigger] k[j] != '=' && k[j] != '\n'
    &&& (k.len() == 0 || !is_white(k.last()))
}

proof fn lemma_trim_same(s: Seq<char>)
    requires
        s.len() > 0,
        !is_white(s[0]),
        !is_white(s.last()),
    ensures
        trim(s) == s,
{
    assert(trim_start(s) == s);
    assert(trim_end(s) == s);
}

/// The first `c` at or after 0 in `a + seq![c] + b` is the one after `a`.
proof fn lemma_find_first(a: Seq<char>, c: char, b: Seq<char>)
    requires
        forall|j: int| 0 <= j < a.len() ==> #[trigger] a[j] != c,
    ensures
        find_char(a + seq![c] + b, c, 0) == a.len(),
{
    let t = a + seq![c] + b;
    lemma_find_char(t, c, 0);
    let e = find_char(t, c, 0);
    assert(t[a.len() as int] == c);
    if e < a.len() {
        assert(t[e] == a[e]);
    }
}

proof fn lemma_step(l: Seq<char>, r: Seq<char>, acc: (Map<Seq<char>, i64>, Map<u8, u32>))
    requires
        forall|j: int| 0 <= j < l.len() ==> #[trigger] l[j] != '\n',
    ensures
        parse_text(l + "\n"@ + r, acc) == parse_text(r, parse_line(l, acc)),
{
    reveal_strlit("\n");
    let t = l + "\n"@ + r;
    assert(t =~= l + seq!['\n'] + r);
    lemma_find_first(l, '\n', r);
    assert(t.subrange(0, l.len() as int) =~= l);
    assert(t.subrange(l.len() as int + 1, t.len() as int) =~= r);
}

proof fn lemma_header_line(acc: (Map<Seq<char>, i64>, Map<u8, u32>))
    ensures
        parse_line(header_text(), acc) == acc,
        forall|j: int| 0 <= j < header_text().len() ==> #[trigger] header_text()[j] != '\n',
{
    reveal_strlit("# linux-legion: значения режима «Свой», применяются автоматически");
    let h = header_text();
    assert(h[0] == '#');
    assert(!is_white(h.last()));
    lemma_trim_same(h);
}

proof fn lemma_tunable_line(k: Seq<char>, v: i64, acc: (Map<Seq<char>, i64>, Map<u8, u32>))
    requires
        valid_name(k),
    ensures
        parse_line("tunable."@ + k + "="@ + signed_decimal_spec(v as int), acc) == (
            acc.0.insert(k, v),
            acc.1,
        ),
        forall|j: int|
            0 <= j < ("tunable."@ + k + "="@ + signed_decimal_spec(v as int)).len() ==> #[trigger] (
            "tunable."@ + k + "="@ + signed_decimal_spec(v as int))[j] != '\n',
{
    reveal_strlit("tunable.");
    reveal_strlit("=");
    let p = "tunable."@;
    let d = signed_decimal_spec(v as int);
    lemma_signed_reads_back(v);
    let l = p + k + "="@ + d;
    assert(l =~= (p + k) + seq!['='] + d);
    assert forall|j: int| 0 <= j < l.len() implies #[trigger] l[j] != '\n' by {
        if j >= p.len() + k.len() + 1 {
            assert(l[j] == d[j - p.len() - k.len() - 1]);
        } else if j >= p.len() && j < p.len() + k.len() {
            assert(l[j] == k[j - p.len()]);
        }
    }
    assert(!is_white(l.last())) by {
        assert(l.last() == d.last());
    }
    lemma_trim_same(l);
    assert forall|j: int| 0 <= j < (p + k).len() implies #[trigger] (p + k)[j] != '=' by {
        if j >= p.len() {
            assert((p + k)[j] == k[j - p.len()]);
        }
    }
    lemma_find_first(p + k, '=', d);
    let key = l.subrange(0, (p.len() + k.len()) as int);
    assert(key =~= p + k);
    assert(!is_white(key.last())) by {
        if k.len() > 0 {
            assert(key.last() == k.last());
        }
    }
    lemma_trim_same(key);
    assert(key.subrange(0, p.len() as int) =~= p);
    assert(key.subrange(p.len() as int, key.len() as int) =~= k);
    let val = l.subrange((p.len() + k.len() + 1) as int, l.len() as int);
    assert(val =~= d);
    assert(!is_white(d[0])) by {
        assert(d[0] == '-' || is_digit(d[0]));
    }
    lemma_trim_same(d);
}

proof fn lemma_fan_line(i: u8, r: u32, acc: (Map<Seq<char>, i64>, Map<u8, u32>))
    ensures
        parse_line("fan."@ + decimal_spec(i as nat) + "="@ + decimal_spec(r as nat), acc) == (
            acc.0,
            acc.1.insert(i, r),
        ),
        forall|j: int|
            0 <= j < ("fan."@ + decimal_spec(i as nat) + "="@ + decimal_spec(r as nat)).len()
                ==> #[trigger] ("fan."@ + decimal_spec(i as nat) + "="@ + decimal_spec(
                r as nat,
            ))[j] != '\n',
{
    reveal_strlit("fan.");
    reveal_strlit("tunable.");
    reveal_strlit("=");
    let p = "fan."@;
    let a = decimal_spec(i as nat);
    let d = decimal_spec(r as nat);
    lemma_decimal_reads_back(i as nat);
    lemma_decimal_reads_back(r as nat);
    lemma_unsigned_reads_back(i as nat, 0xFF);
    lemma_unsigned_reads_back(r as nat, 0xFFFF_FFFF);
    let l = p + a + "="@ + d;
    assert(l =~= (p + a) + seq!['='] + d);
    assert forall|j: int| 0 <= j < l.len() implies #[trigger] l[j] != '\n' by {
        if j >= p.len() + a.len() + 1 {
            assert(l[j] == d[j - p.len() - a.len() - 1]);
        } else if j >= p.len() && j < p.len() + a.len() {
            assert(l[j] == a[j - p.len()]);
        }
    }
    assert(!is_white(l.last())) by {
        assert(l.last() == d.last());
        assert(is_digit(d[d.len() - 1]));
    }
    lemma_trim_same(l);
    assert forall|j: int| 0 <= j < (p + a).len() implies #[trigger] (p + a)[j] != '=' by {
        if j >= p.len() {
            assert((p + a)[j] == a[j - p.len()]);
        }
    }
    lemma_find_first(p + a, '=', d);
    let key = l.subrange(0, (p.len() + a.len()) as int);
    assert(key =~= p + a);
    assert(!is_white(key.last())) by {
        assert(key.last() == a.last());
        assert(is_digit(a[a.len() - 1]));
    }
    lemma_trim_same(key);
    assert(!has_prefix(key, "tunable."@)) by {
        if key.len() >= 8 {
            assert(key.subrange(0, 8)[0] != "tunable."@[0]);
        }
    }
    assert(key.subrange(0, p.len() as int) =~= p);
    assert(key.subrange(p.len() as int, key.len() as int) =~= a);
    let val = l.subrange((p.len() + a.len() + 1) as int, l.len() as int);
    assert(val =~= d);
    assert(!is_white(d[0])) by {
        assert(is_digit(d[0]));
    }
    assert(!is_white(d.last())) by {
        assert(is_digit(d[d.len() - 1]));
    }
    lemma_trim_same(d);
}

proof fn lemma_tunable_lines(v: Seq<(String, i64)>, r: Seq<char>, fm: Map<u8, u32>)
    requires
        forall|i: int| 0 <= i < v.len() ==> valid_name(#[trigger] v[i].0@),
    ensures
        parse_text(tunable_lines(v) + r, (Map::empty(), fm)) == parse_text(r, (tunable_map(v), fm)),
    decreases v.len(),
{
    if v.len() == 0 {
        assert(tunable_lines(v) + r =~= r);
    } else {
        let w = v.drop_last();
        let (k, val) = (v.last().0@, v.last().1);
        assert(valid_name(v[v.len() - 1].0@));
        let line = "tunable."@ + k + "="@ + signed_decimal_spec(val as int);
        assert(tunable_lines(v) + r =~= tunable_lines(w) + (line + "\n"@ + r));
        lemma_tunable_lines(w, line + "\n"@ + r, fm);
        lemma_tunable_line(k, val, (tunable_map(w), fm));
        lemma_step(line, r, (tunable_map(w), fm));
    }
}

proof fn lemma_fan_lines(v: Seq<(u8, u32)>, r: Seq<char>, tm: Map<Seq<char>, i64>)
    ensures
        parse_text(fan_lines(v) + r, (tm, Map::empty())) == parse_text(r, (tm, fan_map(v))),
    decreases v.len(),
{
    if v.len() == 0 {
        assert(fan_lines(v) + r =~= r);
    } else {
        let w = v.drop_last();
        let (i, rpm) = (v.last().0, v.last().1);
        let line = "fan."@ + decimal_spec(i as nat) + "="@ + decimal_spec(rpm as nat);
        assert(fan_lines(v) + r =~= fan_lines(w) + (line + "\n"@ + r));
        lemma_fan_lines(w, line + "\n"@ + r, tm);
        lemma_fan_line(i, rpm, (tm, fan_map(w)));
        lemma_step(line, r, (tm, fan_map(w)));
    }
}

/// Reading back the text that `render` writes gives the saved values, for
/// power-limit names without `=`, line breaks or trailing white space.
pub proof fn law_render_parse_roundtrip(s: Saved)
    requires
        s.wf(),
        forall|i: int| 0 <= i < s.tunables@.len() ==> valid_name(#[trigger] s.tunables@[i].0@),
    ensures
        parse_spec(render_spec(s.tunables@, s.fans@)) == s@,
{
    let t = s.tunables@;
    let f = s.fans@;
    let e = (Map::<Seq<char>, i64>::empty(), Map::<u8, u32>::empty());
    lemma_header_line(e);
    assert(render_spec(t, f) =~= header_text() + "\n"@ + (tunable_lines(t) + fan_lines(f)));
    lemma_step(header_text(), tunable_lines(t) + fan_lines(f), e);
    assert(fan_lines(f) =~= fan_lines(f) + Seq::<char>::empty());
    lemma_tunable_lines(t, fan_lines(f), Map::empty());
    lemma_fan_lines(f, Seq::empty(), tunable_map(t));
    let z = Seq::<char>::empty();
    lemma_find_char(z, '\n', 0);
    assert(z.subrange(0, 0) =~= z);
    assert(trim(z) =~= z);
}



/// The value of the entry named `k` in `cur`, as a map built from the
/// entries in order holds it.
pub open spec fn lookup_name(cur: Seq<(String, i64)>, k: Seq<char>) -> Option<i64>
    decreases cur.len(),
{
    if cur.len() == 0 {
        None
    } else if cur.last().0@ == k {
        Some(cur.last().1)
    } else {
        lookup_name(cur.drop_last(), k)
    }
}

/// The speed that `cur` gives fan `i`.
pub open spec fn lookup_fan(cur: Seq<(u8, u32)>, i: u8) -> Option<u32>
    decreases cur.len(),
{
    if cur.len() == 0 {
        None
    } else if cur.last().0 == i {
        Some(cur.last().1)
    } else {
        lookup_fan(cur.drop_last(), i)
    }
}

/// The saved power limits to write: those the driver has, with another
/// current value; in the saved order.
pub open spec fn tunable_writes(saved: Seq<(String, i64)>, cur: Seq<(String, i64)>) -> Seq<
    (String, i64),
>
    decreases saved.len(),
{
    if saved.len() == 0 {
        seq![]
    } else {
        let rest = tunable_writes(saved.drop_last(), cur);
        match lookup_name(cur, saved.last().0@) {
            Some(c) => if c != saved.last().1 {
                rest.push(saved.last())
            } else {
                rest
            },
            None => rest,
        }
    }
}

/// The saved fan speeds to write: those of fans that exist, with another
/// current target; in the saved order.
pub open spec fn fan_writes(saved: Seq<(u8, u32)>, cur: Seq<(u8, u32)>) -> Seq<(u8, u32)>
    decreases saved.len(),
{
    if saved.len() == 0 {
        seq![]
    } else {
        let rest = fan_writes(saved.drop_last(), cur);
        match lookup_fan(cur, saved.last().0) {
            Some(c) => if c != saved.last().1 {
                rest.push(saved.last())
            } else {
                rest
            },
            None => rest,
        }
    }
}

/// A saved power limit that the driver has, with a current value other than
/// the saved one (higher or lower), is among the writes; and each write is a
/// saved entry whose current value differs from it.
pub proof fn law_tunable_writes_what_differs(saved: Seq<(String, i64)>, cur: Seq<(String, i64)>)
    ensures
        forall|i: int|
            0 <= i < saved.len() && lookup_name(cur, #[trigger] saved[i].0@) is Some
                && lookup_name(cur, saved[i].0@)->0 != saved[i].1 ==> tunable_writes(
                saved,
                cur,
            ).contains(saved[i]),
        forall|k: int|
            0 <= k < tunable_writes(saved, cur).len() ==> exists|j: int|
                0 <= j < saved.len() && #[trigger] tunable_writes(saved, cur)[k] == saved[j]
                    && lookup_name(cur, saved[j].0@) is Some && lookup_name(cur, saved[j].0@)->0
                    != saved[j].1,
    decreases saved.len(),
{
    if saved.len() > 0 {
        let d = saved.drop_last();
        law_tunable_writes_what_differs(d, cur);
        let rest = tunable_writes(d, cur);
        let w = tunable_writes(saved, cur);
        assert forall|i: int|
            0 <= i < saved.len() && lookup_name(cur, #[trigger] saved[i].0@) is Some
                && lookup_name(cur, saved[i].0@)->0 != saved[i].1 implies w.contains(saved[i]) by {
            if i < saved.len() - 1 {
                assert(d[i] == saved[i]);
                let t = choose|t: int| 0 <= t < rest.len() && rest[t] == d[i];
                assert(w[t] == saved[i]);
            } else {
                assert(w[w.len() - 1] == saved[i]);
            }
        }
        assert forall|k: int| 0 <= k < w.len() implies exists|j: int|
            0 <= j < saved.len() && #[trigger] w[k] == saved[j] && lookup_name(cur, saved[j].0@) is Some
                && lookup_name(cur, saved[j].0@)->0 != saved[j].1 by {
            if k < rest.len() {
                assert(w[k] == rest[k]);
                let j = choose|j: int|
                    0 <= j < d.len() && #[trigger] rest[k] == d[j] && lookup_name(cur, d[j].0@) is Some
                        && lookup_name(cur, d[j].0@)->0 != d[j].1;
                assert(saved[j] == d[j]);
            } else {
                assert(w[k] == saved[saved.len() - 1]);
            }
        }
    }
}

/// A saved fan speed of a fan that exists, with a current target other than
/// the saved one (higher or lower), is among the writes; and each write is a
/// saved entry whose current target differs from it.
pub proof fn law_fan_writes_what_differs(saved: Seq<(u8, u32)>, cur: Seq<(u8, u32)>)
    ensures
        forall|i: int|
            0 <= i < saved.len() && lookup_fan(cur, #[trigger] saved[i].0) is Some
                && lookup_fan(cur, saved[i].0)->0 != saved[i].1 ==> fan_writes(saved, cur).contains(
                saved[i],
            ),
        forall|k: int|
            0 <= k < fan_writes(saved, cur).len() ==> exists|j: int|
                0 <= j < saved.len() && #[trigger] fan_writes(saved, cur)[k] == saved[j]
                    && lookup_fan(cur, saved[j].0) is Some && lookup_fan(cur, saved[j].0)->0
                    != saved[j].1,
    decreases saved.len(),
{
    if saved.len() > 0 {
        let d = saved.drop_last();
        law_fan_writes_what_differs(d, cur);
        let rest = fan_writes(d, cur);
        let w = fan_writes(saved, cur);
        assert forall|i: int|
            0 <= i < saved.len() && lookup_fan(cur, #[trigger] saved[i].0) is Some
                && lookup_fan(cur, saved[i].0)->0 != saved[i].1 implies w.contains(saved[i]) by {
            if i < saved.len() - 1 {
                assert(d[i] == saved[i]);
                let t = choose|t: int| 0 <= t < rest.len() && rest[t] == d[i];
                assert(w[t] == saved[i]);
            } else {
                assert(w[w.len() - 1] == saved[i]);
            }
        }
        assert forall|k: int| 0 <= k < w.len() implies exists|j: int|
            0 <= j < saved.len() && #[trigger] w[k] == saved[j] && lookup_fan(cur, saved[j].0) is Some
                && lookup_fan(cur, saved[j].0)->0 != saved[j].1 by {
            if k < rest.len() {
                assert(w[k] == rest[k]);
                let j = choose|j: int|
                    0 <= j < d.len() && #[trigger] rest[k] == d[j] && lookup_fan(cur, d[j].0) is Some
                        && lookup_fan(cur, d[j].0)->0 != d[j].1;
                assert(saved[j] == d[j]);
            } else {
                assert(w[k] == saved[saved.len() - 1]);
            }
        }
    }
}

fn find_name(cur: &Vec<(String, i64)>, k: &str) -> (r: Option<i64>)
    ensures
        r == lookup_name(cur@, k@),
{
    let mut i = cur.len();
    assert(cur@.subrange(0, i as int) =~= cur@);
    while i > 0
        invariant
            i <= cur@.len(),
            lookup_name(cur@, k@) == lookup_name(cur@.subrange(0, i as int), k@),
        decreases i,
    {
        assert(cur@.subrange(0, i as int).drop_last() =~= cur@.subrange(0, i - 1));
        if str_is(cur[i - 1].0.as_str(), k) {
            return Some(cur[i - 1].1);
        }
        i = i - 1;
    }
    None
}

fn find_fan(cur: &Vec<(u8, u32)>, k: u8) -> (r: Option<u32>)
    ensures
        r == lookup_fan(cur@, k),
{
    let mut i = cur.len();
    assert(cur@.subrange(0, i as int) =~= cur@);
    while i > 0
        invariant
            i <= cur@.len(),
            lookup_fan(cur@, k) == lookup_fan(cur@.subrange(0, i as int), k),
        decreases i,
    {
        assert(cur@.subrange(0, i as int).drop_last() =~= cur@.subrange(0, i - 1));
        if cur[i - 1].0 == k {
            return Some(cur[i - 1].1);
        }
        i = i - 1;
    }
    None
}

/// Auto-apply acts only in the custom power mode; in any other it reads and
/// writes nothing.
pub fn applies_in(mode: Option<PowerMode>) -> (b: bool)
    ensures
        b == (mode == Some(PowerMode::Custom)),
{
    mode == Some(PowerMode::Custom)
}

/// What auto-apply writes, given the current mode, the saved values, the
/// driver's current power limits `(name, value)` and its fans' current
/// targets `(number, speed)`: nothing outside the custom mode; otherwise
/// each saved value that differs from the current one, limits first.
pub fn apply(
    mode: Option<PowerMode>,
    saved: &Saved,
    current: &Vec<(String, i64)>,
    fans_now: &Vec<(u8, u32)>,
) -> (r: (Vec<(String, i64)>, Vec<(u8, u32)>))
    ensures
        mode != Some(PowerMode::Custom) ==> r.0@.len() == 0 && r.1@.len() == 0,
        mode == Some(PowerMode::Custom) ==> r.0@ == tunable_writes(saved.tunables@, current@)
            && r.1@ == fan_writes(saved.fans@, fans_now@),
{
    let mut t: Vec<(String, i64)> = Vec::new();
    let mut f: Vec<(u8, u32)> = Vec::new();
    if !applies_in(mode) {
        return (t, f);
    }
    let mut i: usize = 0;
    while i < saved.tunables.len()
        invariant
            i <= saved.tunables@.len(),
            t@ == tunable_writes(saved.tunables@.subrange(0, i as int), current@),
        decreases saved.tunables@.len() - i,
    {
        assert(saved.tunables@.subrange(0, i + 1).drop_last() =~= saved.tunables@.subrange(
            0,
            i as int,
        ));
        let (name, v) = (&saved.tunables[i].0, saved.tunables[i].1);
        match find_name(current, name.as_str()) {
            Some(c) => {
                if c != v {
                    t.push((name.clone(), v));
                }
            },
            None => {},
        }
        i = i + 1;
    }
    assert(saved.tunables@.subrange(0, i as int) =~= saved.tunables@);
    let mut j: usize = 0;
    while j < saved.fans.len()
        invariant
            j <= saved.fans@.len(),
            f@ == fan_writes(saved.fans@.subrange(0, j as int), fans_now@),
        decreases saved.fans@.len() - j,
    {
        assert(saved.fans@.subrange(0, j + 1).drop_last() =~= saved.fans@.subrange(0, j as int));
        let (k, rpm) = saved.fans[j];
        match find_fan(fans_now, k) {
            Some(c) => {
                if c != rpm {
                    f.push((k, rpm));
                }
            },
            None => {},
        }
        j = j + 1;
    }
    assert(saved.fans@.subrange(0, j as int) =~= saved.fans@);
    (t, f)
}

/// State of the auto-apply service.
#[derive(Clone, Debug, Default, PartialEq, Eq)]
pub struct ServiceState {
    /// The unit is installed (by the package).
    pub installed: bool,
    pub enabled: bool,
    pub active: bool,
}

/// The service state from what `systemctl --user is-enabled` and
/// `is-active` printed (`None` where the command could not run).
pub fn service_state(is_enabled: Option<&str>, is_active: Option<&str>) -> (r: ServiceState)
    ensures
        ({
            let e = match is_enabled {
                Some(x) => trim(x@),
                None => Seq::<char>::empty(),
            };
            &&& r.installed == (e.len() > 0 && e != "not-found"@)
            &&& r.enabled == (e == "enabled"@)
        }),
        r.active == match is_active {
            Some(x) => trim(x@) == "active"@,
            None => false,
        },
{
    let e = match is_enabled {
        Some(x) => text(x),
        None => String::new(),
    };
    proof {
        reveal_strlit("");
        assert(""@.len() == 0);
        if e@.len() == 0 {
            assert(e@ =~= ""@);
        }
    }
    let installed = !str_is(e.as_str(), "") && !str_is(e.as_str(), "not-found");
    let enabled = str_is(e.as_str(), "enabled");
    let active = match is_active {
        Some(x) => str_is(text(x).as_str(), "active"),
        None => false,
    };
    ServiceState { installed, enabled, active }
}

/// What the service does after one poll.
#[derive(Clone, Copy, Debug, PartialEq, Eq, Structural)]
pub enum Wake {
    /// The laptop slept since the last poll: apply again.
    AfterSleep,
    /// The custom mode was switched on: apply.
    CustomOn,
    Nothing,
}

/// The service's decision after a poll, from the mode and the sleep offset
/// (`CLOCK_BOOTTIME` minus `CLOCK_MONOTONIC`, in nanoseconds, which grows
/// only during sleep) at the last poll and now. A jump of more than a second
/// means the laptop slept.
pub fn daemon_step(last_mode: Option<PowerMode>, last_sleep: u128, mode: Option<PowerMode>, slept: u128) -> (r: Wake)
    requires
        last_sleep + 1_000_000_000 <= u128::MAX,
    ensures
        r == (if slept > last_sleep + 1_000_000_000 {
            Wake::AfterSleep
        } else if mode != last_mode && mode == Some(PowerMode::Custom) {
            Wake::CustomOn
        } else {
            Wake::Nothing
        }),
{
    if slept > last_sleep + 1_000_000_000 {
        Wake::AfterSleep
    } else if mode != last_mode && mode == Some(PowerMode::Custom) {
        Wake::CustomOn
    } else {
        Wake::Nothing
    }
}

/// The note of a power limit written: `name=value`.
pub open spec fn tunable_note_text(name: Seq<char>, v: i64) -> Seq<char> {
    name + "="@ + signed_decimal_spec(v as int)
}

/// The note of a power limit written.
pub fn tunable_note(name: &str, v: i64) -> (s: String)
    ensures
        s@ == tunable_note_text(name@, v),
{
    let mut s = String::from_str(name);
    s.append("=");
    push_signed_decimal(&mut s, v);
    s
}

/// The note of a fan target written: `fanN=rpm`.
pub open spec fn fan_note_text(i: u8, rpm: u32) -> Seq<char> {
    "fan"@ + decimal_spec(i as nat) + "="@ + decimal_spec(rpm as nat)
}

/// The note of a fan target written.
pub fn fan_note(i: u8, rpm: u32) -> (s: String)
    ensures
        s@ == fan_note_text(i, rpm),
{
    let mut s = String::from_str("fan");
    push_decimal(&mut s, i as u64);
    s.append("=");
    push_decimal(&mut s, rpm as u64);
    s
}

/// The notes of the writes that succeeded, in order.
pub open spec fn done_notes(ws: Seq<(Seq<char>, Option<Seq<char>>)>) -> Seq<Seq<char>>
    decreases ws.len(),
{
    if ws.len() == 0 {
        Seq::empty()
    } else if ws.last().1 is None {
        done_notes(ws.drop_last()).push(ws.last().0)
    } else {
        done_notes(ws.drop_last())
    }
}

/// The messages of the writes that failed, in order.
pub open spec fn failures(ws: Seq<(Seq<char>, Option<Seq<char>>)>) -> Seq<Seq<char>>
    decreases ws.len(),
{
    if ws.len() == 0 {
        Seq::empty()
    } else if ws.last().1 is Some {
        failures(ws.drop_last()).push(ws.last().1->0)
    } else {
        failures(ws.drop_last())
    }
}

/// Texts joined with `"; "` between them.
pub open spec fn joined(ms: Seq<Seq<char>>) -> Seq<char>
    decreases ms.len(),
{
    if ms.len() == 0 {
        Seq::empty()
    } else if ms.len() == 1 {
        ms[0]
    } else {
        joined(ms.drop_last()) + "; "@ + ms.last()
    }
}

/// The view of a write's outcome: its note and, when it failed, its message.
pub open spec fn outcome_view(w: (String, Option<String>)) -> (Seq<char>, Option<Seq<char>>) {
    (
        w.0@,
        match w.1 {
            Some(m) => Some(m@),
            None => None,
        },
    )
}

/// The report of auto-apply from the outcome of each write, in order (its
/// note, and the error's message when it failed): the notes of all writes
/// when none failed, else the failures' messages joined with `"; "`.
pub fn report(writes: &Vec<(String, Option<String>)>) -> (r: core::result::Result<Vec<String>, String>)
    ensures
        ({
            let ws = writes@.map_values(|w: (String, Option<String>)| outcome_view(w));
            match r {
                Ok(done) => failures(ws).len() == 0 && done@.map_values(|s: String| s@)
                    == done_notes(ws),
                Err(m) => failures(ws).len() > 0 && m@ == joined(failures(ws)),
            }
        }),
{
    let ghost ws = writes@.map_values(|w: (String, Option<String>)| outcome_view(w));
    let mut done: Vec<String> = Vec::new();
    let mut msg = String::new();
    let mut failed: usize = 0;
    let mut i: usize = 0;
    while i < writes.len()
        invariant
            i <= writes@.len(),
            failed <= i,
            ws == writes@.map_values(|w: (String, Option<String>)| outcome_view(w)),
            done@.map_values(|s: String| s@) == done_notes(ws.take(i as int)),
            failed == failures(ws.take(i as int)).len(),
            msg@ == joined(failures(ws.take(i as int))),
        decreases writes@.len() - i,
    {
        assert(ws.take(i + 1).drop_last() =~= ws.take(i as int));
        assert(ws.take(i + 1).last() == outcome_view(writes@[i as int]));
        let w = &writes[i];
        match &w.1 {
            None => {
                let ghost before = done@;
                done.push(w.0.clone());
                assert(done@.map_values(|s: String| s@) =~= before.map_values(|s: String| s@).push(
                    w.0@,
                ));
            },
            Some(m) => {
                let ghost f = failures(ws.take(i as int));
                assert(failures(ws.take(i + 1)) == f.push(m@));
                assert(f.push(m@).drop_last() =~= f);
                if failed > 0 {
                    msg.append("; ");
                }
                msg.append(m.as_str());
                failed = failed + 1;
            },
        }
        i = i + 1;
    }
    assert(ws.take(i as int) =~= ws);
    if failed == 0 {
        Ok(done)
    } else {
        Err(msg)
    }
}

} // verus!
