//! Battery and charger (`/sys/class/power_supply`).

use vstd::prelude::*;

use crate::scan::{chars_of, eq_lit, split_words, views, words};

verus! {

/// Charging mode (`charge_types`). Vantage calls them rapid charge and
/// conservation mode (charging up to about 80 %).
#[derive(Clone, Copy, Debug, PartialEq, Eq, Hash, Structural)]
pub enum ChargeType {
    Fast,
    Standard,
    LongLife,
}

impl ChargeType {
    pub const ALL: [ChargeType; 3] = [ChargeType::Standard, ChargeType::Fast, ChargeType::LongLife];

    pub open spec fn sysfs_name(self) -> Seq<char> {
        match self {
            ChargeType::Fast => "Fast"@,
            ChargeType::Standard => "Standard"@,
            ChargeType::LongLife => "Long_Life"@,
        }
    }

    /// The name the driver uses for the mode.
    pub fn sysfs(self) -> (s: &'static str)
        ensures
            s@ == self.sysfs_name(),
    {
        match self {
            ChargeType::Fast => "Fast",
            ChargeType::Standard => "Standard",
            ChargeType::LongLife => "Long_Life",
        }
    }

    pub open spec fn from_sysfs_spec(s: Seq<char>) -> Option<ChargeType> {
        if s == "Fast"@ {
            Some(ChargeType::Fast)
        } else if s == "Standard"@ {
            Some(ChargeType::Standard)
        } else if s == "Long_Life"@ {
            Some(ChargeType::LongLife)
        } else {
            None
        }
    }

    /// The mode that the driver's name `s` stands for.
    pub fn from_sysfs(s: &str) -> (r: Option<ChargeType>)
        ensures
            r == Self::from_sysfs_spec(s@),
    {
        let cs = chars_of(s);
        let n = cs.len();
        assert(cs@.subrange(0, n as int) =~= cs@);
        if eq_lit(&cs, 0, n, "Fast") {
            Some(ChargeType::Fast)
        } else if eq_lit(&cs, 0, n, "Standard") {
            Some(ChargeType::Standard)
        } else if eq_lit(&cs, 0, n, "Long_Life") {
            Some(ChargeType::LongLife)
        } else {
            None
        }
    }

    pub open spec fn label_text(self) -> Seq<char> {
        match self {
            ChargeType::Fast => "Быстрая зарядка"@,
            ChargeType::Standard => "Обычная"@,
            ChargeType::LongLife => "Сбережение"@,
        }
    }

    pub fn label(self) -> (s: &'static str)
        ensures
            s@ == self.label_text(),
    {
        match self {
            ChargeType::Fast => "Быстрая зарядка",
            ChargeType::Standard => "Обычная",
            ChargeType::LongLife => "Сбережение",
        }
    }

    pub open spec fn hint_text(self) -> Seq<char> {
        match self {
            ChargeType::Fast => "Заряжает быстрее, но сильнее нагревает аккумулятор."@,
            ChargeType::Standard => "Штатная зарядка до 100 %."@,
            ChargeType::LongLife => "Заряд держится около 80 % — продлевает жизнь аккумулятора, если ноутбук всегда в сети."@,
        }
    }

    pub fn hint(self) -> (s: &'static str)
        ensures
            s@ == self.hint_text(),
    {
        match self {
            ChargeType::Fast => "Заряжает быстрее, но сильнее нагревает аккумулятор.",
            ChargeType::Standard => "Штатная зарядка до 100 %.",
            ChargeType::LongLife => "Заряд держится около 80 % — продлевает жизнь аккумулятора, если ноутбук всегда в сети.",
        }
    }
}

/// The driver reads back every charging mode under the name it is written with.
pub proof fn law_charge_type_name_roundtrip(t: ChargeType)
    ensures
        ChargeType::from_sysfs_spec(t.sysfs_name()) == Some(t),
{
    reveal_strlit("Fast");
    reveal_strlit("Standard");
    reveal_strlit("Long_Life");
    assert("Standard"@[0] != "Fast"@[0]);
    assert("Long_Life"@[0] != "Fast"@[0]);
    assert("Long_Life"@[0] != "Standard"@[0]);
}

#[derive(Clone, Copy, Debug, PartialEq, Eq, Structural)]
pub enum Status {
    Charging,
    Discharging,
    Full,
    NotCharging,
    Unknown,
}

impl Status {
    /// The status that the text of the `status` attribute names.
    pub open spec fn from_sysfs_spec(s: Seq<char>) -> Status {
        if s == "Charging"@ {
            Status::Charging
        } else if s == "Discharging"@ {
            Status::Discharging
        } else if s == "Full"@ {
            Status::Full
        } else if s == "Not charging"@ {
            Status::NotCharging
        } else {
            Status::Unknown
        }
    }

    /// The status from the value of the `status` attribute.
    pub fn from_sysfs(s: &str) -> (r: Status)
        ensures
            r == Self::from_sysfs_spec(s@),
    {
        let cs = chars_of(s);
        let n = cs.len();
        assert(cs@.subrange(0, n as int) =~= cs@);
        if eq_lit(&cs, 0, n, "Charging") {
            Status::Charging
        } else if eq_lit(&cs, 0, n, "Discharging") {
            Status::Discharging
        } else if eq_lit(&cs, 0, n, "Full") {
            Status::Full
        } else if eq_lit(&cs, 0, n, "Not charging") {
            Status::NotCharging
        } else {
            Status::Unknown
        }
    }

    pub open spec fn label_text(self) -> Seq<char> {
        match self {
            Status::Charging => "Заряжается"@,
            Status::Discharging => "Разряжается"@,
            Status::Full => "Заряжена"@,
            Status::NotCharging => "Не заряжается"@,
            Status::Unknown => "—"@,
        }
    }

    pub fn label(self) -> (s: &'static str)
        ensures
            s@ == self.label_text(),
    {
        match self {
            Status::Charging => "Заряжается",
            Status::Discharging => "Разряжается",
            Status::Full => "Заряжена",
            Status::NotCharging => "Не заряжается",
            Status::Unknown => "—",
        }
    }
}

/// A word of `charge_types`: whether it is the selected one (written in
/// square brackets) and the name inside.
pub open spec fn entry(w: Seq<char>) -> (bool, Seq<char>) {
    if w.len() >= 2 && w[0] == '[' && w.last() == ']' {
        (true, w.subrange(1, w.len() - 1))
    } else {
        (false, w)
    }
}

/// The selected mode and the known modes of the words `ws`, in their order;
/// a later selected word overrides an earlier one.
pub open spec fn charge_types_spec(ws: Seq<Seq<char>>) -> (Option<ChargeType>, Seq<ChargeType>)
    decreases ws.len(),
{
    if ws.len() == 0 {
        (None, seq![])
    } else {
        let (cur, all) = charge_types_spec(ws.drop_last());
        let (sel, name) = entry(ws.last());
        match ChargeType::from_sysfs_spec(name) {
            Some(t) => (
                if sel {
                    Some(t)
                } else {
                    cur
                },
                all.push(t),
            ),
            None => (cur, all),
        }
    }
}

/// Reads `[Fast] Standard Long_Life`: the current mode and the offered ones.
pub fn parse_charge_types(s: &str) -> (r: (Option<ChargeType>, Vec<ChargeType>))
    ensures
        r.0 == charge_types_spec(words(s@)).0,
        r.1@ == charge_types_spec(words(s@)).1,
{
    let ws = split_words(s);
    let ghost w = words(s@);
    let mut cur: Option<ChargeType> = None;
    let mut all: Vec<ChargeType> = Vec::new();
    let mut i: usize = 0;
    while i < ws.len()
        invariant
            views(ws@) == w,
            i <= ws@.len(),
            cur == charge_types_spec(w.subrange(0, i as int)).0,
            all@ == charge_types_spec(w.subrange(0, i as int)).1,
        decreases ws@.len() - i,
    {
        let word = ws[i].as_str();
        let cs = chars_of(word);
        assert(cs@ == w[i as int]);
        let n = cs.len();
        let sel = n >= 2 && cs[0] == '[' && cs[n - 1] == ']';
        let t = if sel {
            let inner = word.substring_char(1, n - 1);
            ChargeType::from_sysfs(inner)
        } else {
            ChargeType::from_sysfs(word)
        };
        assert(w.subrange(0, i + 1).drop_last() =~= w.subrange(0, i as int));
        assert(w.subrange(0, i + 1).last() == w[i as int]);
        if let Some(t) = t {
            if sel {
                cur = Some(t);
            }
            all.push(t);
        }
        i = i + 1;
    }
    assert(w.subrange(0, w.len() as int) =~= w);
    (cur, all)
}

} // verus!
