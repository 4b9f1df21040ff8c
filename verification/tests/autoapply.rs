use linux_legion::autoapply::{
    apply, daemon_step, fan_note, report, service_state, tunable_note, Saved, Wake, UNIT,
};
use linux_legion::hw::power::PowerMode;

#[test]
fn config_roundtrip() {
    let mut s = Saved::default();
    s.remember_tunable("ppt_pl1_spl", 95);
    s.remember_fan(1, 3000);
    s.remember_fan(4, 0);
    let text = s.render();
    assert!(text.contains("tunable.ppt_pl1_spl=95"));
    assert_eq!(Saved::parse(&text), s);
    // junk and comments are ignored
    let p = Saved::parse("# x\nfoo\nfan.x=1\ntunable.a=oops\nfan.2 = 2500\n");
    assert_eq!(p.fan(2), Some(2500));
    assert!(p.tunables.is_empty());
}

#[test]
fn render_writes_sorted_lines_after_a_comment() {
    let mut s = Saved::default();
    s.remember_tunable("ppt_pl2_sppt", 125);
    s.remember_tunable("cpu_temp", -3);
    s.remember_tunable("ppt_pl2_sppt", 130);
    s.remember_fan(4, 0);
    s.remember_fan(1, 3000);
    assert_eq!(
        s.render(),
        "# linux-legion: значения режима «Свой», применяются автоматически\n\
         tunable.cpu_temp=-3\ntunable.ppt_pl2_sppt=130\nfan.1=3000\nfan.4=0\n"
    );
    assert_eq!(s.tunable("ppt_pl2_sppt"), Some(130));
    assert_eq!(s.tunable("ppt"), None);
    assert_eq!(s.fan(3), None);
}

#[test]
fn parse_reads_spacing_signs_and_later_lines() {
    let p = Saved::parse("  tunable. a b =  +7  \r\ntunable.x=1\ntunable.x=2\nfan.+3=9\nfan.256=1\nfan.1=-1\n=5\n#tunable.y=1");
    assert_eq!(p.tunable(" a b"), Some(7));
    assert_eq!(p.tunable("x"), Some(2));
    assert_eq!(p.fan(3), Some(9));
    assert_eq!(p.fan(1), None);
    assert_eq!(p.tunables.len(), 2);
    assert_eq!(p.fans.len(), 1);
    assert_eq!(Saved::parse(""), Saved::default());
}

fn saved() -> Saved {
    let mut s = Saved::default();
    s.remember_tunable("ppt_pl1_spl", 95);
    s.remember_tunable("ppt_pl2_sppt", 125);
    s.remember_tunable("gone", 1);
    s.remember_fan(1, 3000);
    s.remember_fan(2, 0);
    s.remember_fan(7, 1);
    s
}

#[test]
fn apply_writes_only_what_differs_in_custom_mode() {
    let s = saved();
    let current = vec![("ppt_pl1_spl".to_string(), 90), ("ppt_pl2_sppt".to_string(), 125)];
    let fans = vec![(1u8, 0u32), (2, 0)];
    let (t, f) = apply(Some(PowerMode::Custom), &s, &current, &fans);
    assert_eq!(t, vec![("ppt_pl1_spl".to_string(), 95)]);
    assert_eq!(f, vec![(1, 3000)]);
    let (t, f) = apply(Some(PowerMode::Balanced), &s, &current, &fans);
    assert!(t.is_empty() && f.is_empty());
    let (t, f) = apply(None, &s, &current, &fans);
    assert!(t.is_empty() && f.is_empty());
}

#[test]
fn apply_uses_the_last_current_entry() {
    let s = saved();
    let current = vec![("ppt_pl1_spl".to_string(), 95), ("ppt_pl1_spl".to_string(), 10)];
    let (t, _) = apply(Some(PowerMode::Custom), &s, &current, &vec![]);
    assert_eq!(t, vec![("ppt_pl1_spl".to_string(), 95)]);
}

#[test]
fn service_state_from_systemctl() {
    let s = service_state(Some("enabled\n"), Some("active\n"));
    assert!(s.installed && s.enabled && s.active);
    let s = service_state(Some("disabled\n"), Some("inactive\n"));
    assert!(s.installed && !s.enabled && !s.active);
    let s = service_state(Some("not-found\n"), None);
    assert!(!s.installed && !s.enabled && !s.active);
    let s = service_state(None, None);
    assert!(!s.installed);
    assert_eq!(UNIT, "linux-legion-autoapply.service");
}

#[test]
fn daemon_wakes_after_sleep_or_on_custom() {
    let c = Some(PowerMode::Custom);
    let b = Some(PowerMode::Balanced);
    assert_eq!(daemon_step(b, 0, b, 1_000_000_001), Wake::AfterSleep);
    assert_eq!(daemon_step(b, 0, c, 1_000_000_000), Wake::CustomOn);
    assert_eq!(daemon_step(c, 5, c, 6), Wake::Nothing);
    assert_eq!(daemon_step(c, 5, b, 6), Wake::Nothing);
}

#[test]
fn auto_apply_acts_only_in_the_custom_mode() {
    assert!(linux_legion::autoapply::applies_in(Some(PowerMode::Custom)));
    assert!(!linux_legion::autoapply::applies_in(Some(PowerMode::Quiet)));
    assert!(!linux_legion::autoapply::applies_in(None));
}

#[test]
fn apply_report_lists_the_writes_or_joins_the_failures() {
    assert_eq!(tunable_note("ppt_pl1_spl", 95), "ppt_pl1_spl=95");
    assert_eq!(tunable_note("offset", -5), "offset=-5");
    assert_eq!(fan_note(1, 3000), "fan1=3000");
    let ok = vec![(tunable_note("a", 1), None), (fan_note(2, 2500), None)];
    assert_eq!(report(&ok), Ok(vec!["a=1".to_string(), "fan2=2500".to_string()]));
    let bad = vec![
        (tunable_note("a", 1), Some("нет доступа".to_string())),
        (fan_note(2, 2500), None),
        (fan_note(3, 10), Some("занято".to_string())),
    ];
    assert_eq!(report(&bad), Err("нет доступа; занято".to_string()));
    assert_eq!(report(&Vec::new()), Ok(Vec::new()));
}
