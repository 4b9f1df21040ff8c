use linux_legion::hw::info::{cpu_name, cpu_threads, model_name, os_name};
use linux_legion::hw::battery::{parse_charge_types, ChargeType, Status};
use linux_legion::hw::device::{read_toggles, set_toggle, Toggle};
use linux_legion::hw::fans::{label, read_fans, set_target, FanFiles};
use linux_legion::hw::power::{
    describe, read_state, read_tunables, set_tunable, sort_by_name, tunable, AttributeFiles,
    PowerMode,
};
use linux_legion::hw::sysfs::{read_bool, read_num, read_u32, sys, text, write_notice, Error};

#[test]
fn parses_charge_types() {
    let (cur, all) = parse_charge_types("[Fast] Standard Long_Life");
    assert_eq!(cur, Some(ChargeType::Fast));
    assert_eq!(all, vec![ChargeType::Fast, ChargeType::Standard, ChargeType::LongLife]);
    assert_eq!(parse_charge_types("Standard [Long_Life] Custom").0, Some(ChargeType::LongLife));
}

#[test]
fn charge_types_edge_cases() {
    assert_eq!(parse_charge_types(""), (None, vec![]));
    assert_eq!(parse_charge_types("[] [Fast"), (None, vec![]));
    assert_eq!(parse_charge_types("[Fast] [Standard]"), (Some(ChargeType::Standard), vec![ChargeType::Fast, ChargeType::Standard]));
    assert_eq!(parse_charge_types("Fast\tStandard\n"), (None, vec![ChargeType::Fast, ChargeType::Standard]));
}

#[test]
fn charge_type_names_read_back() {
    for t in ChargeType::ALL {
        assert_eq!(ChargeType::from_sysfs(t.sysfs()), Some(t));
    }
    assert_eq!(ChargeType::from_sysfs("fast"), None);
    assert_eq!(ChargeType::LongLife.sysfs(), "Long_Life");
}

#[test]
fn battery_status_names() {
    assert_eq!(Status::from_sysfs("Not charging"), Status::NotCharging);
    assert_eq!(Status::from_sysfs("Charging"), Status::Charging);
    assert_eq!(Status::from_sysfs("charging"), Status::Unknown);
    assert_eq!(Status::Unknown.label(), "—");
}

#[test]
fn power_mode_names_read_back() {
    for m in PowerMode::ALL {
        assert_eq!(PowerMode::from_sysfs(m.sysfs()), Some(m));
    }
    assert_eq!(PowerMode::from_sysfs("quiet"), Some(PowerMode::Quiet));
    assert_eq!(PowerMode::from_sysfs("cool"), Some(PowerMode::Quiet));
    assert_eq!(PowerMode::from_sysfs("balanced-performance"), Some(PowerMode::Performance));
    assert_eq!(PowerMode::from_sysfs("turbo"), None);
    assert_eq!(PowerMode::Extreme.tone(), "extreme");
    assert_eq!(PowerMode::Custom.label(), "Свой");
}

#[test]
fn power_state_orders_and_dedups_choices() {
    let s = read_state(Some("custom\n"), Some("custom low-power quiet balanced turbo custom\n"), true);
    assert_eq!(s.mode, Some(PowerMode::Custom));
    assert_eq!(s.choices, vec![PowerMode::Quiet, PowerMode::Balanced, PowerMode::Custom]);
    assert!(s.writable);
    let none = read_state(None, None, false);
    assert_eq!(none.mode, None);
    assert!(none.choices.is_empty());
    assert_eq!(read_state(Some("?"), Some(""), false).mode, None);
}

#[test]
fn attribute_values() {
    assert_eq!(text("  balanced \n"), "balanced");
    assert_eq!(read_num(" -42\n"), Some(-42));
    assert_eq!(read_num("+7"), Some(7));
    assert_eq!(read_num("9223372036854775808"), None);
    assert_eq!(read_num("-9223372036854775808"), Some(i64::MIN));
    assert_eq!(read_num("1 2"), None);
    assert_eq!(read_u32("4294967295\n"), Some(u32::MAX));
    assert_eq!(read_u32("4294967296"), None);
    assert_eq!(read_u32("-1"), None);
    assert_eq!(read_bool("1\n"), Some(true));
    assert_eq!(read_bool("0"), Some(false));
    assert_eq!(read_bool("256"), None);
    assert_eq!(read_bool("on"), None);
}

#[test]
fn sys_paths_follow_the_root() {
    assert_eq!(sys(None, "/sys/class/hwmon"), "/sys/class/hwmon");
    assert_eq!(sys(Some("/tmp/sim"), "/sys/class/hwmon"), "/tmp/sim/sys/class/hwmon");
    assert_eq!(sys(Some("/tmp/sim/"), "//sys"), "/tmp/sim/sys");
    assert_eq!(sys(Some(""), "/sys"), "sys");
}

#[test]
fn write_errors_read_as_messages() {
    assert_eq!(Error::NotFound("battery".to_string()).message(), "battery не найден");
    assert_eq!(
        Error::Rejected("/sys/x".to_string(), "EINVAL".to_string()).message(),
        "драйвер отклонил значение (/sys/x): EINVAL"
    );
    assert_eq!(Error::Io("/p".to_string(), "e".to_string()).message(), "/p: e");
    assert!(Error::Permission("/p".to_string()).message().starts_with("нет прав на запись /p"));
}

#[test]
fn toggles_skip_unreadable_files() {
    let files = vec![Some(("1\n".to_string(), true)), None, Some(("x".to_string(), true))];
    let t = read_toggles(&files);
    assert_eq!(t.items, vec![(Toggle::FnLock, true, true)]);
    let files = vec![Some(("0".to_string(), false)), Some(("1".to_string(), true)), Some(("1".to_string(), false))];
    assert_eq!(
        read_toggles(&files).items,
        vec![(Toggle::FnLock, false, false), (Toggle::Camera, true, true), (Toggle::UsbCharging, true, false)]
    );
    assert_eq!(set_toggle(Toggle::Camera, false), ("camera_power", "0"));
    assert_eq!(set_toggle(Toggle::FnLock, true), ("fn_lock", "1"));
}

fn fan_files(input: Option<&str>, target: Option<&str>, div: Option<&str>) -> FanFiles {
    FanFiles {
        input: input.map(|s| s.to_string()),
        target: target.map(|s| s.to_string()),
        min: Some("1600\n".to_string()),
        max: Some("5200\n".to_string()),
        div: div.map(|s| s.to_string()),
        writable: true,
    }
}

#[test]
fn fans_with_a_speed_are_listed() {
    let files = vec![
        fan_files(Some("1800\n"), Some("0\n"), Some("100\n")),
        fan_files(None, None, None),
        fan_files(Some("bad"), None, None),
        fan_files(Some("2500"), None, Some("0")),
    ];
    let fans = read_fans(&files);
    assert_eq!(fans.len(), 2);
    assert_eq!((fans[0].index, fans[0].label, fans[0].rpm, fans[0].target, fans[0].step), (1, "Процессор", 1800, 0, 100));
    assert_eq!((fans[1].index, fans[1].label, fans[1].rpm, fans[1].target, fans[1].step), (4, "Системный", 2500, 0, 1));
    assert_eq!((fans[1].min, fans[1].max), (1600, 5200));
    assert_eq!(label(9), "Вентилятор");
    assert_eq!(set_target(2, 3000), ("fan2_target".to_string(), "3000".to_string()));
}

fn attr(name: &str, kind: &str, cur: &str, inc: Option<&str>, display: Option<&str>) -> AttributeFiles {
    AttributeFiles {
        name: name.to_string(),
        kind: Some(kind.to_string()),
        current_value: Some(cur.to_string()),
        min_value: Some("50\n".to_string()),
        max_value: Some("165\n".to_string()),
        scalar_increment: inc.map(|s| s.to_string()),
        default_value: Some("90\n".to_string()),
        display_name: display.map(|s| s.to_string()),
        writable: false,
    }
}

#[test]
fn tunables_are_integers_sorted_by_name() {
    let attrs = vec![
        attr("ppt_pl2_sppt", "integer\n", "125\n", Some("1\n"), None),
        attr("zz_mode", "enumeration\n", "1\n", None, None),
        attr("custom_limit", "integer\n", "10\n", Some("0\n"), Some(" Custom limit \n")),
        attr("ppt_pl1_spl", "integer\n", "90\n", None, None),
        attr("broken", "integer\n", "n/a\n", None, None),
    ];
    let t = read_tunables(attrs);
    let names: Vec<&str> = t.iter().map(|t| t.name.as_str()).collect();
    assert_eq!(names, vec!["custom_limit", "ppt_pl1_spl", "ppt_pl2_sppt"]);
    assert_eq!((t[0].label.as_str(), t[0].hint.as_str(), t[0].unit), ("Custom limit", "", ""));
    assert_eq!(t[0].step, 1);
    assert_eq!((t[1].label.as_str(), t[1].unit, t[1].value, t[1].min, t[1].max), ("CPU: длительная мощность (PL1)", "Вт", 90, 50, 165));
    assert_eq!(t[1].default, Some(90));
    assert_eq!(t[2].value, 125);
    assert!(tunable(&attr("x", "string", "1", None, None)).is_none());
    assert_eq!(describe("cpu_temp").unwrap().2, "°C");
    assert_eq!(describe("gpu_nv_cpu_boost").unwrap().1, "");
    assert!(describe("ppt").is_none());
    assert_eq!(set_tunable(-5), "-5");
}

#[test]
fn sorting_keeps_every_attribute() {
    let attrs = vec![
        attr("b", "integer", "1", None, None),
        attr("a", "integer", "2", None, None),
        attr("b", "integer", "3", None, None),
        attr("Z", "integer", "4", None, None),
    ];
    let s = sort_by_name(attrs);
    let keys: Vec<(&str, &str)> = s.iter().map(|a| (a.name.as_str(), a.current_value.as_deref().unwrap())).collect();
    assert_eq!(keys, vec![("Z", "4"), ("a", "2"), ("b", "1"), ("b", "3")]);
}

#[test]
fn write_notices() {
    let ok = write_notice(&Ok(()), None, "Режим питания: Баланс".to_string());
    assert_eq!(ok, (true, "Режим питания: Баланс".to_string()));
    let rejected = Err(Error::Rejected("/sys/x".to_string(), "EINVAL".to_string()));
    assert_eq!(
        write_notice(&rejected, Some(PowerMode::Balanced), String::new()),
        (false, "Драйвер принимает это значение только в режиме «Свой»".to_string())
    );
    assert_eq!(
        write_notice(&rejected, Some(PowerMode::Custom), String::new()),
        (false, "драйвер отклонил значение (/sys/x): EINVAL".to_string())
    );
    let missing = Err(Error::NotFound("battery".to_string()));
    assert_eq!(write_notice(&missing, None, String::new()), (false, "battery не найден".to_string()));
}

#[test]
fn unicode_white_space_is_trimmed() {
    assert_eq!(read_num("\u{a0}5\u{3000}\n"), Some(5));
    assert_eq!(text("\u{2003}custom\u{85}"), "custom");
    assert_eq!(read_state(Some("\u{2028}balanced\u{2029}"), Some("quiet\u{a0}cool"), false).choices, vec![PowerMode::Quiet]);
    assert_eq!(read_num("٣"), None);
}

#[test]
fn system_information_from_text() {
    let cpuinfo = "processor\t: 0\r\nvendor_id\t: GenuineIntel\nmodel name\t: Intel(R) Core(TM) Ultra 9 275HX\nprocessor\t: 1\nmodel name\t: other\n";
    assert_eq!(cpu_name(cpuinfo), "Intel Core Ultra 9 275HX");
    assert_eq!(cpu_threads(cpuinfo), 2);
    assert_eq!(cpu_name("model name without colon\nflags: x\n"), "");
    assert_eq!(cpu_threads(""), 0);
    assert_eq!(os_name("NAME=Fedora\nPRETTY_NAME=\"Fedora Linux 42\"\n"), "Fedora Linux 42");
    assert_eq!(os_name("NAME=x\n"), "");
    assert_eq!(model_name("Legion Pro 7 16IAX10H", "Legion"), "Legion Pro 7 16IAX10H");
    assert_eq!(model_name("83F5", "Legion Pro 7 16IAX10H"), "Legion Pro 7 16IAX10H");
    assert_eq!(model_name("", "Legion"), "Legion");
}
