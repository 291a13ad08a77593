//! Refresh rates: the settings, their changes, the modes of a display and the
//! worker.
use appopt::config::{parse_config, AppConfig, ConfigStore};
use appopt::cpuset::{CpuSet, CpuTopology};
use appopt::display::{
    available_rates, default_rates_from_modes, detect_available_modes, detect_rate_args,
    fmt_device_modes, parse_display_modes, parse_mode_lines, DisplayMode,
};
use appopt::names::NameMap;
use appopt::refresh::{
    refresh_device_default_rates, refresh_get_apps, refresh_get_config, refresh_get_status,
    refresh_on_event, refresh_send_fg_pkg, update_status, RefreshAction, RefreshEvent,
    RefreshState, EVENT_INPUT,
};
use appopt::refresh_edit::{
    refresh_add_app, refresh_del_app, refresh_set_config, write_global_refresh_defaults,
};
use appopt::refresh_lines::{
    is_refresh_config_line, load_refresh_config, parse_refresh_config_line, parse_refresh_mode,
    refresh_mode_str, route_pkg_val_line,
};

fn config_of(content: &str) -> AppConfig {
    let mut all = CpuSet::new();
    all.set(0);
    let topo = CpuTopology {
        present_cpus: all,
        present_str: String::from("0"),
        mems_str: String::from("0"),
        cpuset_enabled: false,
        e_core: all,
        p_core: CpuSet::new(),
        hp_core: CpuSet::new(),
    };
    parse_config(content, &topo).0
}

fn shown(acts: &[RefreshAction]) -> Vec<String> {
    acts.iter()
        .map(|a| match a {
            RefreshAction::SetMode(m) => format!("mode {}", m),
            RefreshAction::StartTimer(t) => format!("start {}", t),
            RefreshAction::StopTimer => String::from("stop"),
            RefreshAction::InputHook(b) => format!("hook {}", b),
            RefreshAction::TouchProbe(b) => format!("probe {}", b),
        })
        .collect()
}

fn mode(id: u32, hz: u32) -> DisplayMode {
    DisplayMode { id, width: 1080, height: 2400, hz }
}

#[test]
fn modes_read_back() {
    for m in [0, 1, 2] {
        assert_eq!(parse_refresh_mode(refresh_mode_str(m)), m);
    }
    assert_eq!(parse_refresh_mode(" 120 "), 0);
    assert_eq!(parse_refresh_mode("144"), 1);
    assert_eq!(refresh_mode_str(9), "60");
}

#[test]
fn global_and_own_settings() {
    let mut g = (30, 0, 1);
    assert!(parse_refresh_config_line("refresh_timeout=12", &mut g));
    assert!(parse_refresh_config_line("refresh_timeout=0", &mut g));
    assert!(parse_refresh_config_line("refresh_active = 90", &mut g));
    assert!(!parse_refresh_config_line("com.a=1", &mut g));
    assert_eq!(g, (12, 2, 1));
    let mut apps: NameMap<(i32, i32, i32)> = NameMap::new();
    assert!(route_pkg_val_line("com.a", "refresh-0-120-90", &mut apps));
    assert!(route_pkg_val_line("com.b", "refresh-x-120-90", &mut apps));
    assert!(route_pkg_val_line("com.c", "refresh-5-120", &mut apps));
    assert!(!route_pkg_val_line("com.d", "0-3", &mut apps));
    assert_eq!(apps.get("com.a"), Some(&(1, 0, 2)));
    assert_eq!(apps.get("com.b"), Some(&(30, 0, 2)));
    assert_eq!(apps.get("com.c"), None);
    assert!(is_refresh_config_line("com.a=refresh-1-2-3") && !is_refresh_config_line("com.a=1"));
    let (g, apps) = load_refresh_config(Some("#refresh_timeout=1\n//refresh_timeout=2\nrefresh_idle=90\ncom.a=refresh-5-90-60\n"));
    assert_eq!(g, (30, 0, 2));
    assert_eq!(apps.get("com.a"), Some(&(5, 2, 1)));
    let (g, apps) = load_refresh_config(None);
    assert_eq!(g, (30, 0, 1));
    assert!(apps.sorted_keys().is_empty());
}

#[test]
fn set_config_reads_back() {
    let text = refresh_set_config(Some("com.a=0\nrefresh_active=60\n"), 15, "90", "60");
    assert_eq!(text, "com.a=0\nrefresh_active=90\nrefresh_timeout=15\nrefresh_idle=60\n");
    assert_eq!(load_refresh_config(Some(&text)).0, (15, 2, 1));
    assert_eq!(config_of(&text).rules.len(), 1);
    assert_eq!(
        refresh_set_config(None, 1, "120", "60"),
        "refresh_timeout=1\nrefresh_active=120\nrefresh_idle=60\n"
    );
}

#[test]
fn defaults_fill_gaps() {
    let t = write_global_refresh_defaults(Some("refresh_timeout=9\nrefresh_idle=90\n"), 120, 60).unwrap();
    assert_eq!(load_refresh_config(Some(&t)).0, (9, 0, 2));
    assert!(write_global_refresh_defaults(
        Some("refresh_timeout=9\nrefresh_active=60\nrefresh_idle=90\n"),
        120,
        60
    )
    .is_none());
}

#[test]
fn applications_come_and_go() {
    let lines = refresh_add_app(Some("# x\ncom.a=refresh-1-60-60\ncom.b=0\n"), "com.a", 20, "120", "90");
    assert_eq!(lines, vec!["# x", "com.a=refresh-20-120-90", "com.b=0"]);
    let text = lines.join("\n");
    assert_eq!(load_refresh_config(Some(&text)).1.get("com.a"), Some(&(20, 0, 2)));
    let lines = refresh_add_app(Some(&text), "com.c", 5, "90", "60");
    assert_eq!(lines.last().map(|s| s.as_str()), Some("com.c=refresh-5-90-60"));
    let gone = refresh_del_app(Some(&text), "com.a").unwrap();
    assert_eq!(gone, vec!["# x", "com.b=0"]);
    let old = refresh_del_app(Some("refresh_app,com.a,1,60,60\ncom.a,1,60,60\ncom.a=0\n"), "com.a").unwrap();
    assert_eq!(old, vec!["com.a=0"]);
    assert!(refresh_del_app(None, "com.a").is_none());
}

#[test]
fn display_reports() {
    let report = "  DisplayMode{id=1, width=1080, height=2400, peakRefreshRate=120.00001, vsyncRate=60.0}\n  other\n  DisplayMode{id=2, width=1080, height=2400, fps=60.0}\n  DisplayMode{id=3, width=1080}\n";
    let ms = parse_mode_lines(report);
    assert_eq!(fmt_device_modes(&ms), vec!["1|1080x2400 120Hz", "2|1080x2400 60Hz"]);
    let mut bytes = vec![0xFFu8, b'\n'];
    bytes.extend_from_slice(report.as_bytes());
    assert_eq!(parse_display_modes(&bytes).len(), 2);
}

#[test]
fn modes_of_a_device() {
    let ms = vec![mode(4, 60), mode(2, 120), mode(1, 120), mode(7, 90), mode(9, 144)];
    assert_eq!(detect_rate_args(&ms), [9, 7, 4]);
    assert_eq!(detect_rate_args(&vec![]), [-1, -1, -1]);
    assert_eq!(detect_rate_args(&vec![mode(2, 120), mode(1, 120)]), [1, 1, 1]);
    assert_eq!(detect_available_modes(&ms), [true, true, true]);
    assert_eq!(detect_available_modes(&vec![mode(1, 90)]), [false, true, false]);
    assert_eq!(default_rates_from_modes(&[false, true, true]), (90, 60));
    assert_eq!(default_rates_from_modes(&[false, false, false]), (120, 60));
    assert_eq!(available_rates(&[true, false, true]), vec![120, 60]);
}

#[test]
fn foreground_brings_active_mode() {
    let mut st = RefreshState::new(&vec![mode(1, 120), mode(2, 60)]);
    let cfg = config_of("refresh_timeout=20\ncom.a=refresh-15-60-120\ncom.s=refresh-15-60-60\n");
    let mut acts: Vec<RefreshAction> = Vec::new();
    st.check_config(Some(&cfg), true, 0, &mut acts);
    acts.clear();
    assert!(st.try_apply_fg_pkg("com.a", 1000, &mut acts));
    assert_eq!(st.current_active, 1);
    assert_eq!(st.current_applied_mode, 1);
    assert_eq!(shown(&acts), vec!["mode 2", "start 15"]);
    acts.clear();
    st.handle_event(RefreshEvent::FgPkg(String::from("com.s")), 2000, &mut acts);
    assert_eq!(shown(&acts), vec!["hook false", "stop"]);
    assert!(!st.try_apply_fg_pkg("", 3000, &mut acts));
}

#[test]
fn home_screen_has_global_settings() {
    let mut st = RefreshState::new(&vec![]);
    let cfg = config_of("refresh_timeout=20\ncom.android.launcher3=refresh-15-60-120\n");
    let mut acts: Vec<RefreshAction> = Vec::new();
    st.check_config(Some(&cfg), true, 0, &mut acts);
    st.try_apply_fg_pkg("com.android.launcher3", 0, &mut acts);
    assert_eq!((st.current_timeout, st.current_active, st.current_idle), (20, 0, 1));
}

#[test]
fn touches_are_throttled_and_end_idle() {
    let mut st = RefreshState::new(&vec![]);
    let mut acts: Vec<RefreshAction> = Vec::new();
    st.try_apply_fg_pkg("com.a", 0, &mut acts);
    st.switch_to_idle(&mut acts);
    assert!(st.is_paused);
    assert_eq!(st.current_applied_mode, 1);
    acts.clear();
    st.handle_input(5000, &mut acts);
    assert!(!st.is_paused);
    assert_eq!(st.current_applied_mode, 0);
    acts.clear();
    st.handle_event(RefreshEvent::Input, 5500, &mut acts);
    assert!(acts.is_empty());
    st.handle_input(6000, &mut acts);
    assert!(acts.is_empty());
    st.handle_input(26000, &mut acts);
    assert_eq!(shown(&acts), vec!["start 30"]);
}

#[test]
fn a_mode_is_asked_for_once() {
    let mut st = RefreshState::new(&vec![mode(3, 120)]);
    let mut acts: Vec<RefreshAction> = Vec::new();
    st.set_refresh_rate(0, &mut acts);
    st.set_refresh_rate(0, &mut acts);
    assert_eq!(shown(&acts), vec!["mode 3"]);
}

#[test]
fn what_the_worker_tells() {
    let mut st = RefreshState::new(&vec![mode(3, 120), mode(4, 60)]);
    let mut acts: Vec<RefreshAction> = Vec::new();
    st.try_apply_fg_pkg("com.a", 0, &mut acts);
    st.handle_input(10_000, &mut acts);
    let s = update_status(&st, 13_500);
    assert_eq!(s.current_package, "com.a");
    assert_eq!(s.available, vec![120, 60]);
    assert_eq!(s.last_input_secs, 3);
    assert_eq!(refresh_device_default_rates(Some(&s)), (120, 60));
    assert_eq!(refresh_device_default_rates(None), (120, 60));
    let published = Some(s);
    assert_eq!(refresh_get_status(&published).unwrap().timeout, 30);
    assert!(refresh_get_status(&None).is_none());
    assert!(matches!(refresh_send_fg_pkg(String::from("a"), true), Some(RefreshEvent::FgPkg(p)) if p == "a"));
    assert!(refresh_send_fg_pkg(String::from("a"), false).is_none());
    assert!(matches!(refresh_on_event(EVENT_INPUT, true), Some(RefreshEvent::Input)));
    assert!(refresh_on_event(1, true).is_none());
}

#[test]
fn settings_in_force() {
    let mut store = ConfigStore::new();
    assert_eq!(refresh_get_config(&store), (30, String::from("120"), String::from("60")));
    store.current = Some(config_of("refresh_timeout=7\ncom.b=refresh-5-90-60\ncom.a=refresh-6-120-60\n"));
    assert_eq!(refresh_get_config(&store).0, 7);
    let apps = refresh_get_apps(&store);
    assert_eq!(apps.len(), 2);
    assert!(apps.contains(&(String::from("com.b"), 5, String::from("90"), String::from("60"))));
}
