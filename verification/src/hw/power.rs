//! Power modes (Fn+Q) and the power limits of the custom mode.
//!
//! * the mode is the `platform-profile` of the `lenovo-wmi-gamezone` driver;
//! * the limits are firmware attributes of the `lenovo-wmi-other` driver
//!   (`/sys/class/firmware-attributes/lenovo-wmi-other-0/attributes/*`).

use vstd::prelude::*;

use crate::hw::sysfs::{num_spec, read_num, text};
use crate::scan::{
    chars_of, eq_lit, lemma_lex_irreflexive, lemma_lex_total, lemma_lex_transitive, lex_lt,
    split_words, str_is, str_lt, trim, views, words,
};

verus! {

#[derive(Clone, Copy, Debug, PartialEq, Eq, Hash, Structural)]
pub enum PowerMode {
    Quiet,
    Balanced,
    Performance,
    Extreme,
    Custom,
}

impl PowerMode {
    pub const ALL: [PowerMode; 5] = [
        PowerMode::Quiet,
        PowerMode::Balanced,
        PowerMode::Performance,
        PowerMode::Extreme,
        PowerMode::Custom,
    ];

    /// The modes in the order of `ALL`.
    pub open spec fn all_seq() -> Seq<PowerMode> {
        seq![
            PowerMode::Quiet,
            PowerMode::Balanced,
            PowerMode::Performance,
            PowerMode::Extreme,
            PowerMode::Custom,
        ]
    }

    /// The name the driver uses for the mode.
    pub open spec fn sysfs_name(self) -> Seq<char> {
        match self {
            PowerMode::Quiet => "low-power"@,
            PowerMode::Balanced => "balanced"@,
            PowerMode::Performance => "performance"@,
            PowerMode::Extreme => "max-power"@,
            PowerMode::Custom => "custom"@,
        }
    }

    pub fn sysfs(self) -> (s: &'static str)
        ensures
            s@ == self.sysfs_name(),
    {
        match self {
            PowerMode::Quiet => "low-power",
            PowerMode::Balanced => "balanced",
            PowerMode::Performance => "performance",
            PowerMode::Extreme => "max-power",
            PowerMode::Custom => "custom",
        }
    }

    /// The mode a profile name stands for; drivers other than
    /// `lenovo-wmi-gamezone` use some other names for the same modes.
    pub open spec fn from_sysfs_spec(s: Seq<char>) -> Option<PowerMode> {
        if s == "low-power"@ || s == "quiet"@ || s == "cool"@ {
            Some(PowerMode::Quiet)
        } else if s == "balanced"@ {
            Some(PowerMode::Balanced)
        } else if s == "performance"@ || s == "balanced-performance"@ {
            Some(PowerMode::Performance)
        } else if s == "max-power"@ {
            Some(PowerMode::Extreme)
        } else if s == "custom"@ {
            Some(PowerMode::Custom)
        } else {
            None
        }
    }

    pub fn from_sysfs(s: &str) -> (r: Option<PowerMode>)
        ensures
            r == Self::from_sysfs_spec(s@),
    {
        let cs = chars_of(s);
        let n = cs.len();
        assert(cs@.subrange(0, n as int) =~= cs@);
        if eq_lit(&cs, 0, n, "low-power") || eq_lit(&cs, 0, n, "quiet") || eq_lit(&cs, 0, n, "cool") {
            Some(PowerMode::Quiet)
        } else if eq_lit(&cs, 0, n, "balanced") {
            Some(PowerMode::Balanced)
        } else if eq_lit(&cs, 0, n, "performance") || eq_lit(&cs, 0, n, "balanced-performance") {
            Some(PowerMode::Performance)
        } else if eq_lit(&cs, 0, n, "max-power") {
            Some(PowerMode::Extreme)
        } else if eq_lit(&cs, 0, n, "custom") {
            Some(PowerMode::Custom)
        } else {
            None
        }
    }

    pub open spec fn label_text(self) -> Seq<char> {
        match self {
            PowerMode::Quiet => "Тихий"@,
            PowerMode::Balanced => "Баланс"@,
            PowerMode::Performance => "Производительность"@,
            PowerMode::Extreme => "Экстрим"@,
            PowerMode::Custom => "Свой"@,
        }
    }

    pub fn label(self) -> (s: &'static str)
        ensures
            s@ == self.label_text(),
    {
        match self {
            PowerMode::Quiet => "Тихий",
            PowerMode::Balanced => "Баланс",
            PowerMode::Performance => "Производительность",
            PowerMode::Extreme => "Экстрим",
            PowerMode::Custom => "Свой",
        }
    }

    pub open spec fn hint_text(self) -> Seq<char> {
        match self {
            PowerMode::Quiet => "Тишина и холодный корпус, ниже производительность"@,
            PowerMode::Balanced => "Автоматический баланс шума и мощности"@,
            PowerMode::Performance => "Максимальная мощность для игр и работы"@,
            PowerMode::Extreme => "Мощность сверх штатной, вентиляторы на пределе"@,
            PowerMode::Custom => "Ваши лимиты мощности и обороты вентиляторов"@,
        }
    }

    pub fn hint(self) -> (s: &'static str)
        ensures
            s@ == self.hint_text(),
    {
        match self {
            PowerMode::Quiet => "Тишина и холодный корпус, ниже производительность",
            PowerMode::Balanced => "Автоматический баланс шума и мощности",
            PowerMode::Performance => "Максимальная мощность для игр и работы",
            PowerMode::Extreme => "Мощность сверх штатной, вентиляторы на пределе",
            PowerMode::Custom => "Ваши лимиты мощности и обороты вентиляторов",
        }
    }

    /// Colour of the indicator on the power button, as Legion shows it.
    pub open spec fn tone_text(self) -> Seq<char> {
        match self {
            PowerMode::Quiet => "quiet"@,
            PowerMode::Balanced => "balanced"@,
            PowerMode::Performance => "perf"@,
            PowerMode::Extreme => "extreme"@,
            PowerMode::Custom => "custom"@,
        }
    }

    pub fn tone(self) -> (s: &'static str)
        ensures
            s@ == self.tone_text(),
    {
        match self {
            PowerMode::Quiet => "quiet",
            PowerMode::Balanced => "balanced",
            PowerMode::Performance => "perf",
            PowerMode::Extreme => "extreme",
            PowerMode::Custom => "custom",
        }
    }
}

/// The driver reads back every mode under the name it is written with.
pub proof fn law_sysfs_name_roundtrip(m: PowerMode)
    ensures
        PowerMode::from_sysfs_spec(m.sysfs_name()) == Some(m),
{
    reveal_strlit("low-power");
    reveal_strlit("quiet");
    reveal_strlit("cool");
    reveal_strlit("balanced");
    reveal_strlit("performance");
    reveal_strlit("balanced-performance");
    reveal_strlit("max-power");
    reveal_strlit("custom");
    assert("balanced"@[0] != "low-power"@[0]);
    assert("balanced"@ != "low-power"@);
    assert("performance"@[0] != "low-power"@[0]);
    assert("performance"@ != "low-power"@);
    assert("max-power"@[0] != "low-power"@[0]);
    assert("max-power"@ != "low-power"@);
    assert("custom"@[0] != "low-power"@[0]);
    assert("custom"@ != "low-power"@);
    assert("balanced"@[0] != "quiet"@[0]);
    assert("balanced"@ != "quiet"@);
    assert("balanced"@[0] != "cool"@[0]);
    assert("balanced"@ != "cool"@);
    assert("performance"@[0] != "balanced"@[0]);
    assert("performance"@ != "balanced"@);
    assert("max-power"@[0] != "balanced"@[0]);
    assert("max-power"@ != "balanced"@);
    assert("custom"@[0] != "balanced"@[0]);
    assert("custom"@ != "balanced"@);
    assert("performance"@[0] != "quiet"@[0]);
    assert("performance"@ != "quiet"@);
    assert("performance"@[0] != "cool"@[0]);
    assert("performance"@ != "cool"@);
    assert("max-power"@[0] != "quiet"@[0]);
    assert("max-power"@ != "quiet"@);
    assert("max-power"@[0] != "cool"@[0]);
    assert("max-power"@ != "cool"@);
    assert("custom"@[0] != "quiet"@[0]);
    assert("custom"@ != "quiet"@);
    assert("custom"@[1] != "cool"@[1]);
    assert("custom"@ != "cool"@);
    assert("max-power"@[0] != "performance"@[0]);
    assert("max-power"@ != "performance"@);
    assert("max-power"@[0] != "balanced-performance"@[0]);
    assert("max-power"@ != "balanced-performance"@);
    assert("custom"@[0] != "performance"@[0]);
    assert("custom"@ != "performance"@);
    assert("custom"@[0] != "balanced-performance"@[0]);
    assert("custom"@ != "balanced-performance"@);
    assert("custom"@[0] != "max-power"@[0]);
    assert("custom"@ != "max-power"@);
}

/// The current mode, the modes the driver offers, and whether the mode can
/// be changed.
#[derive(Clone, Debug, PartialEq)]
pub struct PowerState {
    pub mode: Option<PowerMode>,
    pub choices: Vec<PowerMode>,
    pub writable: bool,
}

impl Default for PowerState {
    fn default() -> (s: PowerState)
        ensures
            s.mode is None,
            s.choices@.len() == 0,
            !s.writable,
    {
        PowerState { mode: None, choices: Vec::new(), writable: false }
    }
}

/// Some word of a choices list names mode `m`.
pub open spec fn offered(ws: Seq<Seq<char>>, m: PowerMode) -> bool {
    exists|i: int| 0 <= i < ws.len() && PowerMode::from_sysfs_spec(#[trigger] ws[i]) == Some(m)
}

/// The modes that a choices list names, each once, in the order of `ALL`;
/// unknown names are left out.
pub open spec fn choices_spec(ws: Seq<Seq<char>>) -> Seq<PowerMode> {
    PowerMode::all_seq().filter(|m: PowerMode| offered(ws, m))
}

proof fn lemma_choices_unfold(ws: Seq<Seq<char>>)
    ensures
        choices_spec(ws) == (if offered(ws, PowerMode::Quiet) {
            seq![PowerMode::Quiet]
        } else {
            Seq::<PowerMode>::empty()
        }) + (if offered(ws, PowerMode::Balanced) {
            seq![PowerMode::Balanced]
        } else {
            Seq::<PowerMode>::empty()
        }) + (if offered(ws, PowerMode::Performance) {
            seq![PowerMode::Performance]
        } else {
            Seq::<PowerMode>::empty()
        }) + (if offered(ws, PowerMode::Extreme) {
            seq![PowerMode::Extreme]
        } else {
            Seq::<PowerMode>::empty()
        }) + (if offered(ws, PowerMode::Custom) {
            seq![PowerMode::Custom]
        } else {
            Seq::<PowerMode>::empty()
        }),
{
    let f = |m: PowerMode| offered(ws, m);
    let a = PowerMode::all_seq();
    reveal_with_fuel(Seq::filter, 6);
    assert(a.drop_last() =~= seq![
        PowerMode::Quiet,
        PowerMode::Balanced,
        PowerMode::Performance,
        PowerMode::Extreme,
    ]);
    assert(a.drop_last().drop_last() =~= seq![
        PowerMode::Quiet,
        PowerMode::Balanced,
        PowerMode::Performance,
    ]);
    assert(a.drop_last().drop_last().drop_last() =~= seq![
        PowerMode::Quiet,
        PowerMode::Balanced,
    ]);
    assert(a.drop_last().drop_last().drop_last().drop_last() =~= seq![PowerMode::Quiet]);
    assert(a.drop_last().drop_last().drop_last().drop_last().drop_last() =~= Seq::<
        PowerMode,
    >::empty());
    assert(choices_spec(ws) =~= (if offered(ws, PowerMode::Quiet) {
        seq![PowerMode::Quiet]
    } else {
        Seq::<PowerMode>::empty()
    }) + (if offered(ws, PowerMode::Balanced) {
        seq![PowerMode::Balanced]
    } else {
        Seq::<PowerMode>::empty()
    }) + (if offered(ws, PowerMode::Performance) {
        seq![PowerMode::Performance]
    } else {
        Seq::<PowerMode>::empty()
    }) + (if offered(ws, PowerMode::Extreme) {
        seq![PowerMode::Extreme]
    } else {
        Seq::<PowerMode>::empty()
    }) + (if offered(ws, PowerMode::Custom) {
        seq![PowerMode::Custom]
    } else {
        Seq::<PowerMode>::empty()
    }));
}

/// The modes named in the text of a `choices` file.
pub fn parse_choices(text: &str) -> (r: Vec<PowerMode>)
    ensures
        r@ == choices_spec(words(text@)),
{
    let ws = split_words(text);
    let ghost w = words(text@);
    let mut seen: [bool; 5] = [false, false, false, false, false];
    let mut i: usize = 0;
    while i < ws.len()
        invariant
            views(ws@) == w,
            i <= ws@.len(),
            forall|k: int|
                0 <= k < 5 ==> (#[trigger] seen[k] <==> exists|j: int|
                    0 <= j < i && PowerMode::from_sysfs_spec(#[trigger] w[j]) == Some(
                        PowerMode::all_seq()[k],
                    )),
        decreases ws@.len() - i,
    {
        assert(w[i as int] == ws@[i as int]@);
        match PowerMode::from_sysfs(ws[i].as_str()) {
            Some(PowerMode::Quiet) => {
                seen[0] = true;
            },
            Some(PowerMode::Balanced) => {
                seen[1] = true;
            },
            Some(PowerMode::Performance) => {
                seen[2] = true;
            },
            Some(PowerMode::Extreme) => {
                seen[3] = true;
            },
            Some(PowerMode::Custom) => {
                seen[4] = true;
            },
            None => {},
        }
        i = i + 1;
    }
    proof {
        assert forall|k: int| 0 <= k < 5 implies (#[trigger] seen[k] <==> offered(
            w,
            PowerMode::all_seq()[k],
        )) by {
            if seen[k] {
                let j = choose|j: int|
                    0 <= j < i && PowerMode::from_sysfs_spec(#[trigger] w[j]) == Some(
                        PowerMode::all_seq()[k],
                    );
                assert(PowerMode::from_sysfs_spec(w[j]) == Some(PowerMode::all_seq()[k]));
            }
        }
        lemma_choices_unfold(w);
    }
    let mut r: Vec<PowerMode> = Vec::new();
    if seen[0] {
        r.push(PowerMode::Quiet);
    }
    if seen[1] {
        r.push(PowerMode::Balanced);
    }
    if seen[2] {
        r.push(PowerMode::Performance);
    }
    if seen[3] {
        r.push(PowerMode::Extreme);
    }
    if seen[4] {
        r.push(PowerMode::Custom);
    }
    r
}

/// The power state from the text of the profile file (`None` when it could
/// not be read), the text of the choices file and whether the profile file
/// is writable.
pub fn read_state(profile: Option<&str>, choices: Option<&str>, writable: bool) -> (s: PowerState)
    ensures
        s.mode == (match profile {
            Some(p) => PowerMode::from_sysfs_spec(trim(p@)),
            None => None,
        }),
        s.choices@ == (match choices {
            Some(c) => choices_spec(words(c@)),
            None => choices_spec(Seq::empty()),
        }),
        s.writable == writable,
{
    let mode = match profile {
        Some(p) => {
            let t = crate::hw::sysfs::text(p);
            PowerMode::from_sysfs(t.as_str())
        },
        None => None,
    };
    let list = match choices {
        Some(c) => parse_choices(c),
        None => {
            let r = parse_choices("");
            proof {
                reveal_strlit("");
                assert(words(""@) =~= Seq::<Seq<char>>::empty());
            }
            r
        },
    };
    PowerState { mode, choices: list, writable }
}


/// Captions of the known attributes: (title, explanation, unit).
pub open spec fn describe_spec(name: Seq<char>) -> Option<(Seq<char>, Seq<char>, Seq<char>)> {
    if name == "ppt_pl1_spl"@ {
        Some(("CPU: длительная мощность (PL1)"@, "Мощность, которую процессор держит неограниченно долго."@, "Вт"@))
    } else if name == "ppt_pl2_sppt"@ {
        Some(("CPU: кратковременная мощность (PL2)"@, "Всплеск мощности на десятки секунд под нагрузкой."@, "Вт"@))
    } else if name == "ppt_pl3_fppt"@ {
        Some(("CPU: пиковая мощность (PL3)"@, "Короткие пики в миллисекунды."@, "Вт"@))
    } else if name == "ppt_pl1_apu_spl"@ {
        Some(("APU: длительная мощность"@, "Лимит мощности встроенной графики."@, "Вт"@))
    } else if name == "cpu_temp"@ {
        Some(("CPU: температурный предел"@, "Температура, при которой процессор сбрасывает частоту."@, "°C"@))
    } else if name == "gpu_temp"@ {
        Some(("GPU: температурный предел"@, "Температура, при которой видеокарта сбрасывает частоту."@, "°C"@))
    } else if name == "gpu_nv_ctgp"@ {
        Some(("GPU: настраиваемый TGP"@, "Базовая мощность видеокарты NVIDIA."@, "Вт"@))
    } else if name == "gpu_nv_ppab"@ {
        Some(("GPU: Dynamic Boost"@, "Мощность, которую видеокарта забирает у процессора."@, "Вт"@))
    } else if name == "gpu_nv_tpp"@ {
        Some(("GPU: полная мощность"@, "Суммарный лимит видеокарты."@, "Вт"@))
    } else if name == "gpu_nv_cpu_boost"@ {
        Some(("GPU: буст при нагрузке CPU"@, ""@, "Вт"@))
    } else {
        None
    }
}

/// The captions of attribute `name`, if it is a known one.
pub fn describe(name: &str) -> (r: Option<(&'static str, &'static str, &'static str)>)
    ensures
        match (r, describe_spec(name@)) {
            (Some(x), Some(y)) => x.0@ == y.0 && x.1@ == y.1 && x.2@ == y.2,
            (None, None) => true,
            _ => false,
        },
{
    if str_is(name, "ppt_pl1_spl") {
        Some(("CPU: длительная мощность (PL1)", "Мощность, которую процессор держит неограниченно долго.", "Вт"))
    } else if str_is(name, "ppt_pl2_sppt") {
        Some(("CPU: кратковременная мощность (PL2)", "Всплеск мощности на десятки секунд под нагрузкой.", "Вт"))
    } else if str_is(name, "ppt_pl3_fppt") {
        Some(("CPU: пиковая мощность (PL3)", "Короткие пики в миллисекунды.", "Вт"))
    } else if str_is(name, "ppt_pl1_apu_spl") {
        Some(("APU: длительная мощность", "Лимит мощности встроенной графики.", "Вт"))
    } else if str_is(name, "cpu_temp") {
        Some(("CPU: температурный предел", "Температура, при которой процессор сбрасывает частоту.", "°C"))
    } else if str_is(name, "gpu_temp") {
        Some(("GPU: температурный предел", "Температура, при которой видеокарта сбрасывает частоту.", "°C"))
    } else if str_is(name, "gpu_nv_ctgp") {
        Some(("GPU: настраиваемый TGP", "Базовая мощность видеокарты NVIDIA.", "Вт"))
    } else if str_is(name, "gpu_nv_ppab") {
        Some(("GPU: Dynamic Boost", "Мощность, которую видеокарта забирает у процессора.", "Вт"))
    } else if str_is(name, "gpu_nv_tpp") {
        Some(("GPU: полная мощность", "Суммарный лимит видеокарты.", "Вт"))
    } else if str_is(name, "gpu_nv_cpu_boost") {
        Some(("GPU: буст при нагрузке CPU", "", "Вт"))
    } else {
        None
    }
}

/// A power limit of the custom mode.
#[derive(Clone, Debug, PartialEq)]
pub struct Tunable {
    pub name: String,
    pub label: String,
    pub hint: String,
    pub unit: &'static str,
    pub value: i64,
    pub min: i64,
    pub max: i64,
    pub step: i64,
    pub default: Option<i64>,
    pub writable: bool,
}

/// The texts of one firmware attribute's files (`None` where a file could
/// not be read), its directory's name, and whether `current_value` is
/// writable.
#[derive(Clone, Debug, PartialEq, Eq)]
pub struct AttributeFiles {
    pub name: String,
    pub kind: Option<String>,
    pub current_value: Option<String>,
    pub min_value: Option<String>,
    pub max_value: Option<String>,
    pub scalar_increment: Option<String>,
    pub default_value: Option<String>,
    pub display_name: Option<String>,
    pub writable: bool,
}

/// A file's value as an `i64`, if it was read and holds one.
pub open spec fn num_of(raw: Option<String>) -> Option<i64> {
    match raw {
        Some(r) => match num_spec(r@) {
            Some(v) => Some(v as i64),
            None => None,
        },
        None => None,
    }
}

/// The attribute is an integer with a current value and bounds.
pub open spec fn qualifies(a: AttributeFiles) -> bool {
    &&& (match a.kind {
        Some(k) => trim(k@) == "integer"@,
        None => false,
    })
    &&& num_of(a.current_value) is Some
    &&& num_of(a.min_value) is Some
    &&& num_of(a.max_value) is Some
}

/// `t` is the power limit that attribute `a` describes.
pub open spec fn tunable_from(t: Tunable, a: AttributeFiles) -> bool {
    &&& t.name@ == a.name@
    &&& Some(t.value) == num_of(a.current_value)
    &&& Some(t.min) == num_of(a.min_value)
    &&& Some(t.max) == num_of(a.max_value)
    &&& t.step == (match num_of(a.scalar_increment) {
        Some(s) => if s >= 1 {
            s
        } else {
            1
        },
        None => 1,
    })
    &&& t.default == num_of(a.default_value)
    &&& t.writable == a.writable
    &&& match describe_spec(a.name@) {
        Some((l, h, u)) => t.label@ == l && t.hint@ == h && t.unit@ == u,
        None => t.label@ == (match a.display_name {
            Some(d) => trim(d@),
            None => a.name@,
        }) && t.hint@ == Seq::<char>::empty() && t.unit@ == Seq::<char>::empty(),
    }
}

fn num_exec(raw: &Option<String>) -> (r: Option<i64>)
    ensures
        r == num_of(*raw),
{
    match raw {
        Some(x) => read_num(x.as_str()),
        None => None,
    }
}

/// The power limit that attribute `a` describes, if it is an integer with
/// a current value and bounds.
pub fn tunable(a: &AttributeFiles) -> (r: Option<Tunable>)
    ensures
        r is Some <==> qualifies(*a),
        r is Some ==> tunable_from(r->0, *a),
{
    let is_int = match &a.kind {
        Some(k) => str_is(text(k.as_str()).as_str(), "integer"),
        None => false,
    };
    if !is_int {
        return None;
    }
    let value = match num_exec(&a.current_value) {
        Some(v) => v,
        None => return None,
    };
    let min = match num_exec(&a.min_value) {
        Some(v) => v,
        None => return None,
    };
    let max = match num_exec(&a.max_value) {
        Some(v) => v,
        None => return None,
    };
    let step = match num_exec(&a.scalar_increment) {
        Some(s) => if s >= 1 {
            s
        } else {
            1
        },
        None => 1,
    };
    let (label, hint, unit) = match describe(a.name.as_str()) {
        Some((l, h, u)) => (l.to_owned(), h.to_owned(), u),
        None => {
            let l = match &a.display_name {
                Some(d) => text(d.as_str()),
                None => a.name.clone(),
            };
            proof {
                reveal_strlit("");
            }
            (l, String::new(), "")
        },
    };
    let t = Tunable {
        name: a.name.clone(),
        label,
        hint,
        unit,
        value,
        min,
        max,
        step,
        default: num_exec(&a.default_value),
        writable: a.writable,
    };
    assert(t.name@ == a.name@);
    assert(Some(t.value) == num_of(a.current_value));
    assert(t.step == (match num_of(a.scalar_increment) {
        Some(s) => if s >= 1 {
            s
        } else {
            1
        },
        None => 1,
    }));
    assert(match describe_spec(a.name@) {
        Some((l, h, u)) => t.label@ == l && t.hint@ == h && t.unit@ == u,
        None => t.label@ == (match a.display_name {
            Some(d) => trim(d@),
            None => a.name@,
        }) && t.hint@ == Seq::<char>::empty() && t.unit@ == Seq::<char>::empty(),
    });
    Some(t)
}

/// The names are in non-decreasing order.
pub open spec fn names_ordered(s: Seq<AttributeFiles>) -> bool {
    forall|i: int, j: int| 0 <= i < j < s.len() ==> !lex_lt(#[trigger] s[j].name@, #[trigger] s[i].name@)
}

/// The positions in `s` of the attributes that describe power limits.
pub open spec fn qualifying(s: Seq<AttributeFiles>) -> Seq<int>
    decreases s.len(),
{
    if s.len() == 0 {
        seq![]
    } else if qualifies(s.last()) {
        qualifying(s.drop_last()).push(s.len() - 1)
    } else {
        qualifying(s.drop_last())
    }
}

proof fn lemma_qualifying_bounds(s: Seq<AttributeFiles>)
    ensures
        forall|j: int|
            0 <= j < qualifying(s).len() ==> 0 <= #[trigger] qualifying(s)[j] < s.len()
                && qualifies(s[qualifying(s)[j]]),
    decreases s.len(),
{
    if s.len() > 0 {
        let w = s.drop_last();
        lemma_qualifying_bounds(w);
        assert forall|j: int| 0 <= j < qualifying(s).len() implies 0 <= #[trigger] qualifying(s)[j]
            < s.len() && qualifies(s[qualifying(s)[j]]) by {
            if j < qualifying(w).len() {
                assert(qualifying(s)[j] == qualifying(w)[j]);
                assert(w[qualifying(w)[j]] == s[qualifying(w)[j]]);
            }
        }
    }
}

/// `r` holds the power limits of the attributes `s` that describe one, in order.
pub open spec fn tunables_of(s: Seq<AttributeFiles>, r: Seq<Tunable>) -> bool {
    &&& r.len() == qualifying(s).len()
    &&& forall|j: int| 0 <= j < r.len() ==> tunable_from(#[trigger] r[j], s[qualifying(s)[j]])
}

proof fn lemma_lex_asymmetric(a: Seq<char>, b: Seq<char>)
    requires
        lex_lt(a, b),
    ensures
        !lex_lt(b, a),
{
    if lex_lt(b, a) {
        lemma_lex_transitive(a, b, a);
        lemma_lex_irreflexive(a);
    }
}

/// The attributes ordered by name; attributes of the same name keep their order.
pub fn sort_by_name(attrs: Vec<AttributeFiles>) -> (r: Vec<AttributeFiles>)
    ensures
        r@.to_multiset() == attrs@.to_multiset(),
        names_ordered(r@),
{
    let ghost all = attrs@;
    let n = attrs.len();
    let mut rest = attrs;
    let mut out: Vec<AttributeFiles> = Vec::new();
    let mut i: usize = 0;
    assert(all.subrange(0, 0) =~= out@);
    assert(all.subrange(0, 0) =~= Seq::<AttributeFiles>::empty());
    while rest.len() > 0
        invariant
            i <= all.len(),
            rest@ == all.subrange(i as int, all.len() as int),
            all.len() == n,
            out@.to_multiset() == all.subrange(0, i as int).to_multiset(),
            names_ordered(out@),
        decreases rest@.len(),
    {
        let a = rest.remove(0);
        let ghost x = all[i as int];
        assert(a == x);
        assert(rest@ =~= all.subrange(i + 1, all.len() as int));
        let mut p: usize = 0;
        while p < out.len() && !str_lt(a.name.as_str(), out[p].name.as_str())
            invariant
                p <= out@.len(),
                forall|j: int| 0 <= j < p ==> !lex_lt(a.name@, #[trigger] out@[j].name@),
            decreases out@.len() - p,
        {
            p = p + 1;
        }
        let ghost before = out@;
        out.insert(p, a);
        proof {
            let w = out@;
            assert(w == before.insert(p as int, x));
            before.insert_ensures(p as int, x);
            assert(w.remove(p as int) =~= before);
            w.to_multiset_ensures();
            assert(w.to_multiset() =~= before.to_multiset().insert(x));
            all.subrange(0, i as int).to_multiset_ensures();
            assert(all.subrange(0, i + 1) =~= all.subrange(0, i as int).push(x));
            assert forall|k: int, j: int| 0 <= k < j < w.len() implies !lex_lt(
                #[trigger] w[j].name@,
                #[trigger] w[k].name@,
            ) by {
                if j < p {
                    assert(!lex_lt(before[j].name@, before[k].name@));
                } else if j == p {
                    assert(!lex_lt(x.name@, before[k].name@));
                } else if k > p {
                    assert(!lex_lt(before[j - 1].name@, before[k - 1].name@));
                } else if k == p {
                    assert(lex_lt(x.name@, before[p as int].name@));
                    if j - 1 > p {
                        assert(!lex_lt(before[j - 1].name@, before[p as int].name@));
                        if before[j - 1].name@ != before[p as int].name@ {
                            lemma_lex_total(before[j - 1].name@, before[p as int].name@);
                            lemma_lex_transitive(x.name@, before[p as int].name@, before[j - 1].name@);
                        }
                    }
                    lemma_lex_asymmetric(x.name@, before[j - 1].name@);
                } else {
                    assert(!lex_lt(before[j - 1].name@, before[k].name@));
                }
            }
        }
        i = i + 1;
    }
    assert(all.subrange(0, i as int) =~= all);
    out
}

/// The power limits among the attributes, ordered by name.
pub fn read_tunables(attrs: Vec<AttributeFiles>) -> (r: Vec<Tunable>)
    ensures
        exists|s: Seq<AttributeFiles>|
            s.to_multiset() == attrs@.to_multiset() && names_ordered(s) && tunables_of(s, r@),
{
    let sorted = sort_by_name(attrs);
    let mut out: Vec<Tunable> = Vec::new();
    let mut k: usize = 0;
    while k < sorted.len()
        invariant
            k <= sorted@.len(),
            tunables_of(sorted@.subrange(0, k as int), out@),
        decreases sorted@.len() - k,
    {
        let ghost before = sorted@.subrange(0, k as int);
        let ghost after = sorted@.subrange(0, k + 1);
        assert(after.drop_last() =~= before);
        assert(after.last() == sorted@[k as int]);
        proof {
            lemma_qualifying_bounds(before);
        }
        if let Some(t) = tunable(&sorted[k]) {
            out.push(t);
            assert forall|j: int| 0 <= j < out@.len() implies tunable_from(
                #[trigger] out@[j],
                after[qualifying(after)[j]],
            ) by {
                if j < out@.len() - 1 {
                    assert(qualifying(after)[j] == qualifying(before)[j]);
                    assert(after[qualifying(before)[j]] == before[qualifying(before)[j]]);
                }
            }
        } else {
            assert forall|j: int| 0 <= j < out@.len() implies tunable_from(
                #[trigger] out@[j],
                after[qualifying(after)[j]],
            ) by {
                assert(after[qualifying(before)[j]] == before[qualifying(before)[j]]);
            }
        }
        k = k + 1;
    }
    assert(sorted@.subrange(0, k as int) =~= sorted@);
    out
}

/// What setting power limit `value` writes to the attribute's
/// `current_value` file.
pub fn set_tunable(value: i64) -> (r: String)
    ensures
        r@ == crate::text::signed_decimal_spec(value as int),
{
    let mut s = String::new();
    crate::text::push_signed_decimal(&mut s, value);
    s
}

} // verus!
