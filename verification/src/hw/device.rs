//! The switches of the `ideapad_acpi` driver.

use vstd::prelude::*;

use crate::hw::sysfs::{bool_spec, read_bool};

verus! {

#[derive(Clone, Copy, Debug, PartialEq, Eq, Hash, Structural)]
pub enum Toggle {
    FnLock,
    Camera,
    UsbCharging,
}

impl Toggle {
    pub const ALL: [Toggle; 3] = [Toggle::FnLock, Toggle::Camera, Toggle::UsbCharging];

    pub open spec fn file_name(self) -> Seq<char> {
        match self {
            Toggle::FnLock => "fn_lock"@,
            Toggle::Camera => "camera_power"@,
            Toggle::UsbCharging => "usb_charging"@,
        }
    }

    /// The switch's attribute file in the driver's directory.
    pub fn file(self) -> (s: &'static str)
        ensures
            s@ == self.file_name(),
    {
        match self {
            Toggle::FnLock => "fn_lock",
            Toggle::Camera => "camera_power",
            Toggle::UsbCharging => "usb_charging",
        }
    }

    pub open spec fn label_text(self) -> Seq<char> {
        match self {
            Toggle::FnLock => "Fn Lock"@,
            Toggle::Camera => "Питание веб-камеры"@,
            Toggle::UsbCharging => "Зарядка по USB в выключенном состоянии"@,
        }
    }

    pub fn label(self) -> (s: &'static str)
        ensures
            s@ == self.label_text(),
    {
        match self {
            Toggle::FnLock => "Fn Lock",
            Toggle::Camera => "Питание веб-камеры",
            Toggle::UsbCharging => "Зарядка по USB в выключенном состоянии",
        }
    }

    pub open spec fn hint_text(self) -> Seq<char> {
        match self {
            Toggle::FnLock => "F1–F12 работают как функциональные клавиши без удержания Fn."@,
            Toggle::Camera => "Выключает камеру аппаратно — ни одна программа не сможет её включить."@,
            Toggle::UsbCharging => "Порт USB с молнией заряжает телефон, даже когда ноутбук выключен или спит."@,
        }
    }

    pub fn hint(self) -> (s: &'static str)
        ensures
            s@ == self.hint_text(),
    {
        match self {
            Toggle::FnLock => "F1–F12 работают как функциональные клавиши без удержания Fn.",
            Toggle::Camera => "Выключает камеру аппаратно — ни одна программа не сможет её включить.",
            Toggle::UsbCharging => "Порт USB с молнией заряжает телефон, даже когда ноутбук выключен или спит.",
        }
    }
}

/// The switches that could be read: (switch, state, whether it can be changed).
#[derive(Clone, Debug, PartialEq, Eq)]
pub struct Toggles {
    pub items: Vec<(Toggle, bool, bool)>,
}

impl Default for Toggles {
    fn default() -> (t: Toggles)
        ensures
            t.items@.len() == 0,
    {
        Toggles { items: Vec::new() }
    }
}

/// The entry of switch `t` for the contents of its file and whether the
/// file is writable; none where the file could not be read or holds no `u8`.
pub open spec fn toggle_item(t: Toggle, file: Option<(String, bool)>) -> Seq<(Toggle, bool, bool)> {
    match file {
        Some((raw, w)) => match bool_spec(raw@) {
            Some(v) => seq![(t, v, w)],
            None => seq![],
        },
        None => seq![],
    }
}

pub open spec fn toggles_spec(files: Seq<Option<(String, bool)>>) -> Seq<(Toggle, bool, bool)> {
    toggle_item(Toggle::FnLock, files[0]) + toggle_item(Toggle::Camera, files[1]) + toggle_item(
        Toggle::UsbCharging,
        files[2],
    )
}

fn item(t: Toggle, file: &Option<(String, bool)>, items: &mut Vec<(Toggle, bool, bool)>)
    ensures
        final(items)@ == old(items)@ + toggle_item(t, *file),
{
    match file {
        Some((raw, w)) => match read_bool(raw.as_str()) {
            Some(v) => {
                items.push((t, v, *w));
            },
            None => {
                assert(old(items)@ + toggle_item(t, *file) =~= old(items)@);
            },
        },
        None => {
            assert(old(items)@ + toggle_item(t, *file) =~= old(items)@);
        },
    }
}

/// The switches from their files, in the order of `Toggle::ALL`: for each,
/// the file's text (`None` where it could not be read) and whether it is
/// writable.
pub fn read_toggles(files: &Vec<Option<(String, bool)>>) -> (r: Toggles)
    requires
        files@.len() == 3,
    ensures
        r.items@ == toggles_spec(files@),
{
    let mut items: Vec<(Toggle, bool, bool)> = Vec::new();
    item(Toggle::FnLock, &files[0], &mut items);
    item(Toggle::Camera, &files[1], &mut items);
    item(Toggle::UsbCharging, &files[2], &mut items);
    assert(items@ =~= toggles_spec(files@));
    Toggles { items }
}

pub open spec fn toggle_value(on: bool) -> Seq<char> {
    if on {
        "1"@
    } else {
        "0"@
    }
}

/// What switching `t` writes: the file and its new text.
pub fn set_toggle(t: Toggle, on: bool) -> (r: (&'static str, &'static str))
    ensures
        r.0@ == t.file_name(),
        r.1@ == toggle_value(on),
{
    (t.file(), if on {
        "1"
    } else {
        "0"
    })
}

} // verus!
