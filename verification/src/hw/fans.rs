//! Fans: the hwmon device of the `lenovo-wmi-other` driver.
//!
//! `fanN_input` is the current speed, `fanN_target` the requested one (0 is
//! automatic), `fanN_min`/`fanN_max` the allowed range, `fanN_div` the step.

use vstd::prelude::*;

use crate::hw::sysfs::{read_u32, unsigned_spec};
use crate::text::{decimal, decimal_spec};

verus! {

#[derive(Clone, Debug, PartialEq, Eq)]
pub struct Fan {
    pub index: u8,
    pub label: &'static str,
    pub rpm: u32,
    /// 0 is automatic control.
    pub target: u32,
    pub min: u32,
    pub max: u32,
    pub step: u32,
    pub writable: bool,
}

pub open spec fn label_text(index: u8) -> Seq<char> {
    if index == 1 {
        "Процессор"@
    } else if index == 2 {
        "Видеокарта"@
    } else if index == 3 {
        "Дополнительный"@
    } else if index == 4 {
        "Системный"@
    } else {
        "Вентилятор"@
    }
}

/// What fan `index` cools.
pub fn label(index: u8) -> (s: &'static str)
    ensures
        s@ == label_text(index),
{
    match index {
        1 => "Процессор",
        2 => "Видеокарта",
        3 => "Дополнительный",
        4 => "Системный",
        _ => "Вентилятор",
    }
}

/// The texts of one fan's attribute files (`None` where a file could not be
/// read) and whether its target can be written.
#[derive(Clone, Debug, PartialEq, Eq)]
pub struct FanFiles {
    pub input: Option<String>,
    pub target: Option<String>,
    pub min: Option<String>,
    pub max: Option<String>,
    pub div: Option<String>,
    pub writable: bool,
}

/// A file's value as a `u32`, or `dflt` where it is missing or no `u32`.
pub open spec fn u32_or(raw: Option<String>, dflt: u32) -> u32 {
    match raw {
        Some(r) => match unsigned_spec(r@, u32::MAX as int) {
            Some(v) => v as u32,
            None => dflt,
        },
        None => dflt,
    }
}

/// The fan's speed, if its `input` file holds one.
pub open spec fn rpm_of(f: FanFiles) -> Option<u32> {
    match f.input {
        Some(r) => match unsigned_spec(r@, u32::MAX as int) {
            Some(v) => Some(v as u32),
            None => None,
        },
        None => None,
    }
}

/// `fan` is fan `index` as its files describe it.
pub open spec fn fan_from(fan: Fan, index: u8, f: FanFiles) -> bool {
    &&& rpm_of(f) == Some(fan.rpm)
    &&& fan.index == index
    &&& fan.label@ == label_text(index)
    &&& fan.target == u32_or(f.target, 0)
    &&& fan.min == u32_or(f.min, 0)
    &&& fan.max == u32_or(f.max, 0)
    &&& fan.step == (if u32_or(f.div, 100) >= 1 {
        u32_or(f.div, 100)
    } else {
        1
    })
    &&& fan.writable == f.writable
}

/// The positions in `files` of the fans that report a speed, in order.
pub open spec fn present(files: Seq<FanFiles>) -> Seq<int>
    decreases files.len(),
{
    if files.len() == 0 {
        seq![]
    } else if rpm_of(files.last()) is Some {
        present(files.drop_last()).push(files.len() - 1)
    } else {
        present(files.drop_last())
    }
}

proof fn lemma_present_bounds(files: Seq<FanFiles>)
    ensures
        forall|j: int|
            0 <= j < present(files).len() ==> 0 <= #[trigger] present(files)[j] < files.len()
                && rpm_of(files[present(files)[j]]) is Some,
    decreases files.len(),
{
    if files.len() > 0 {
        lemma_present_bounds(files.drop_last());
    }
}

fn u32_or_exec(raw: &Option<String>, dflt: u32) -> (r: u32)
    ensures
        r == u32_or(*raw, dflt),
{
    match raw {
        Some(r) => match read_u32(r.as_str()) {
            Some(v) => v,
            None => dflt,
        },
        None => dflt,
    }
}

/// The fans numbered from 1 whose files are `files[0]`, `files[1]`, ...:
/// those that report a speed.
pub fn read_fans(files: &Vec<FanFiles>) -> (r: Vec<Fan>)
    requires
        files@.len() < 256,
    ensures
        r@.len() == present(files@).len(),
        forall|j: int|
            0 <= j < r@.len() ==> fan_from(
                #[trigger] r@[j],
                (present(files@)[j] + 1) as u8,
                files@[present(files@)[j]],
            ),
{
    let mut out: Vec<Fan> = Vec::new();
    let mut k: usize = 0;
    while k < files.len()
        invariant
            k <= files@.len() < 256,
            out@.len() == present(files@.subrange(0, k as int)).len(),
            forall|j: int|
                0 <= j < out@.len() ==> fan_from(
                    #[trigger] out@[j],
                    (present(files@.subrange(0, k as int))[j] + 1) as u8,
                    files@[present(files@.subrange(0, k as int))[j]],
                ),
        decreases files@.len() - k,
    {
        let ghost before = files@.subrange(0, k as int);
        let ghost after = files@.subrange(0, k + 1);
        assert(after.drop_last() =~= before);
        assert(after.last() == files@[k as int]);
        proof {
            lemma_present_bounds(before);
        }
        let f = &files[k];
        let index = (k + 1) as u8;
        let rpm = match &f.input {
            Some(r) => read_u32(r.as_str()),
            None => None,
        };
        if let Some(rpm) = rpm {
            let d = u32_or_exec(&f.div, 100);
            let fan = Fan {
                index,
                label: label(index),
                rpm,
                target: u32_or_exec(&f.target, 0),
                min: u32_or_exec(&f.min, 0),
                max: u32_or_exec(&f.max, 0),
                step: if d >= 1 {
                    d
                } else {
                    1
                },
                writable: f.writable,
            };
            out.push(fan);
            assert forall|j: int| 0 <= j < out@.len() implies fan_from(
                #[trigger] out@[j],
                (present(after)[j] + 1) as u8,
                files@[present(after)[j]],
            ) by {
                if j < out@.len() - 1 {
                    assert(present(after)[j] == present(before)[j]);
                }
            }
        }
        k = k + 1;
    }
    assert(files@.subrange(0, files@.len() as int) =~= files@);
    out
}

/// The attribute file of fan `index`'s target speed.
pub open spec fn target_file(index: u8) -> Seq<char> {
    "fan"@ + decimal_spec(index as nat) + "_target"@
}

/// What requesting `rpm` for fan `index` writes: the file in the hwmon
/// directory and its new text.
pub fn set_target(index: u8, rpm: u32) -> (r: (String, String))
    ensures
        r.0@ == target_file(index),
        r.1@ == decimal_spec(rpm as nat),
{
    let mut file = String::new();
    file.append("fan");
    file.append(decimal(index as u64).as_str());
    file.append("_target");
    (file, decimal(rpm as u64))
}

} // verus!
