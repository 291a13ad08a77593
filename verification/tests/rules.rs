//! CPU sets, the rule file and its layout.
use appopt::config::{
    add_rule, config_reload, config_reload_now, cpu_config_changed, load_config, parse_config,
    printable, reload_refresh_only, request_config_reload, set_kpm_arm_req, settle_cpuset_dirs,
    take_cpu_rules_changed, take_kpm_arm_req, wanted_dir, AffinityRule, AppConfig, ConfigStore,
    ReloadRequest,
};
use appopt::cpuset::{
    base_cpuset, create_cpuset_dir, cpuset_dir_path, detect_core_types, enable_cpuset,
    ensure_cpuset_dir, init_cpu_topo, parse_cpu_ranges, parse_cpu_spec, set_base_cpuset,
    sync_init_once, CpuSet, CpuTopology, CpusetRoot, DirPlan, Mkdir, Policy,
};
use appopt::grammar::{
    close_like, comment_at, is_skip_line, parse_outer, parse_rule_spec, spec_like, split_rule_line,
    split_single_line, strip_comment, OuterLine,
};
use appopt::layout::{
    classify_line, current_config_pkg_set, file_text, last_pkg_end_index, organize_config,
    pkg_of_line, LineKind,
};
use appopt::names::{NameMap, NameSet};
use appopt::number::{
    parse_hex, parse_i32, parse_u16, parse_u32, parse_u64, parse_usize, push_i32, push_u64,
};
use appopt::order::{comes_before, insert_ascending};
use appopt::plain_rules;
use appopt::text;

fn set_of(cpus: &[usize]) -> CpuSet {
    let mut s = CpuSet::new();
    for c in cpus {
        s.set(*c);
    }
    s
}

/// Six efficiency cores and two prime ones.
fn six_and_two() -> CpuTopology {
    CpuTopology {
        present_cpus: set_of(&[0, 1, 2, 3, 4, 5, 6, 7]),
        present_str: String::from("0-7"),
        mems_str: String::from("0"),
        cpuset_enabled: true,
        e_core: set_of(&[0, 1, 2, 3, 4, 5]),
        p_core: CpuSet::new(),
        hp_core: set_of(&[6, 7]),
    }
}

fn shown(r: &AffinityRule) -> String {
    format!(
        "{}|{}|{}|{}|{}|{}",
        r.pkg,
        r.thread,
        r.cpus.to_range_string(),
        r.cpuset_dir,
        r.util_min,
        r.util_max
    )
}

fn rules_of(content: &str) -> Vec<String> {
    parse_config(content, &six_and_two()).0.rules.iter().map(shown).collect()
}

fn parsed(content: &str) -> AppConfig {
    parse_config(content, &six_and_two()).0
}

#[test]
fn text_pieces() {
    assert_eq!(text::trim(" \t a b \r"), "a b");
    assert_eq!(text::trim_start("  a "), "a ");
    assert_eq!(text::trim_end("  a "), "  a");
    assert_eq!(text::find("abc", 'c'), Some(2));
    assert_eq!(text::find("abc", 'x'), None);
    assert_eq!(text::head("abc", 2), "ab");
    assert_eq!(text::tail("abc", 2), "c");
    assert!(text::starts_with("refresh-1", "refresh-"));
    assert!(!text::starts_with("re", "refresh-"));
    assert!(text::ends_with("a.apk", ".apk"));
    assert!(text::contains("abcd", "bc"));
    assert!(!text::contains("abcd", "bd"));
    assert_eq!(text::split("a--b", '-'), vec!["a", "", "b"]);
    assert_eq!(text::split("", '-'), vec![""]);
    assert_eq!(text::lines("a\r\nb\n\nc"), vec!["a", "b", "", "c"]);
    assert_eq!(text::split_whitespace("  a \t b\n"), vec!["a", "b"]);
    assert_eq!(text::byte_length("aé中😀"), 1 + 2 + 3 + 4);
    assert_eq!(text::split_once("a=b=c", '='), Some(("a", "b=c")));
    assert_eq!(text::split_once("abc", '='), None);
    assert_eq!(text::strip_last("a{", '{'), Some("a"));
    assert_eq!(text::strip_first("a{", '{'), None);
    assert_eq!(text::trim_end_of("a}}", '}'), "a");
    assert_eq!(text::tail_after_last("/system/bin/app", '/'), "app");
}

#[test]
fn splitting_undoes_joining() {
    let parts = vec![String::from("a"), String::from(""), String::from("c")];
    let whole = text::join(&parts, "-");
    assert_eq!(whole, "a--c");
    assert_eq!(text::split(&whole, '-'), vec!["a", "", "c"]);
}

#[test]
fn numbers_read_and_written() {
    assert_eq!(parse_u64("18446744073709551615"), Some(u64::MAX));
    assert_eq!(parse_u64("18446744073709551616"), None);
    assert_eq!(parse_u64("+7"), Some(7));
    assert_eq!(parse_u64(""), None);
    assert_eq!(parse_u64("+"), None);
    assert_eq!(parse_u64("-1"), None);
    assert_eq!(parse_usize("12"), Some(12));
    assert_eq!(parse_u32("4294967296"), None);
    assert_eq!(parse_u16("65535"), Some(65535));
    assert_eq!(parse_u16("65536"), None);
    assert_eq!(parse_i32("-2147483648"), Some(i32::MIN));
    assert_eq!(parse_i32("2147483648"), None);
    assert_eq!(parse_hex("fF"), Some(255));
    assert_eq!(parse_hex("x"), None);
    for n in [0u64, 9, 10, 12345, u64::MAX] {
        let mut s = String::new();
        push_u64(&mut s, n);
        assert_eq!(s, format!("{}", n));
        assert_eq!(parse_u64(&s), Some(n));
    }
    for n in [0i32, -1, 42, i32::MIN, i32::MAX] {
        let mut s = String::from("x");
        push_i32(&mut s, n);
        assert_eq!(s, format!("x{}", n));
    }
}

#[test]
fn names_in_order() {
    assert!(comes_before("a", "ab"));
    assert!(comes_before("B", "a"));
    assert!(!comes_before("a", "a"));
    let mut v: Vec<String> = Vec::new();
    for n in ["com.b", "com.a", "com.c", "com.b"] {
        insert_ascending(&mut v, n);
    }
    assert!(v.windows(2).all(|w| w[0] <= w[1]));
    assert!(v.contains(&String::from("com.a")));
}

#[test]
fn names_in_sets_and_maps() {
    let mut s = NameSet::new();
    s.insert("b");
    s.insert("a");
    s.insert("b");
    assert_eq!(s.names.len(), 2);
    assert!(s.contains("a") && !s.contains("c"));
    let mut m: NameMap<u64> = NameMap::new();
    m.insert("z", 1);
    m.insert("y", 2);
    m.insert("z", 3);
    assert_eq!(m.get("z"), Some(&3));
    assert_eq!(m.sorted_keys(), vec!["y", "z"]);
    assert_eq!(m.remove("z"), Some(3));
    assert!(!m.contains_key("z"));
}

#[test]
fn cpu_ranges() {
    let s = parse_cpu_ranges("0-3,5,7-8", None);
    assert_eq!(s.to_range_string(), "0-3,5,7-8");
    assert_eq!(s.count(), 7);
    assert!(s.is_set(5) && !s.is_set(6));
    assert_eq!(s.first_word(), 0b1_1010_1111);
    let present = set_of(&[0, 1, 2, 3]);
    assert_eq!(parse_cpu_ranges("2-9", Some(&present)).to_range_string(), "2-3");
    assert_eq!(parse_cpu_ranges("3-1", None).to_range_string(), "1-3");
    assert_eq!(parse_cpu_ranges("x, 2", None).to_range_string(), "2");
    assert_eq!(parse_cpu_ranges("1023", None).to_range_string(), "1023");
    assert_eq!(parse_cpu_ranges("1024", None).count(), 0);
}

#[test]
fn range_texts_read_back() {
    for cpus in [vec![], vec![0], vec![0, 1, 2], vec![0, 2, 4, 5, 63, 64, 65, 1023]] {
        let s = set_of(&cpus);
        let t = s.to_range_string();
        assert!(parse_cpu_ranges(&t, None).same_as(&s));
    }
}

#[test]
fn joining_cpu_sets() {
    let mut a = set_of(&[1, 70]);
    a.or(&set_of(&[2, 1000]));
    assert_eq!(a.to_range_string(), "1-2,70,1000");
}

#[test]
fn core_names_stand_for_cpus() {
    let t = six_and_two();
    assert_eq!(parse_cpu_spec("e-core,p-core", &t).to_range_string(), "0-5");
    assert_eq!(parse_cpu_spec("hp-core", &t).to_range_string(), "6-7");
    assert_eq!(parse_cpu_spec("p-core,hp-core", &t).to_range_string(), "6-7");
    assert_eq!(parse_cpu_spec("all-core", &t).to_range_string(), "0-7");
    assert_eq!(parse_cpu_spec("e-core,7", &t).to_range_string(), "0-5,7");
    assert_eq!(parse_cpu_spec("p-core", &t).count(), 0);
}

fn policy(name: &str, freq: &str, cpus: &str) -> Policy {
    Policy {
        name: String::from(name),
        max_freq: Some(String::from(freq)),
        related_cpus: Some(String::from(cpus)),
    }
}

#[test]
fn tiers_by_frequency() {
    let (e, p, hp) = detect_core_types(&vec![
        policy("policy7", "3000000\n", "7\n"),
        policy("policy0", "1800000\n", "0 1 2 3\n"),
        policy("policy4", "2400000\n", "4 5\n"),
        policy("policy6", "2600000\n", "6\n"),
    ]);
    assert_eq!(e.to_range_string(), "0-3");
    assert_eq!(p.to_range_string(), "4-6");
    assert_eq!(hp.to_range_string(), "7");
    let (e, p, hp) =
        detect_core_types(&vec![policy("policy0", "3500000", "0 1 2 3 4 5"), policy("policy6", "4300000", "6 7")]);
    assert_eq!(e.to_range_string(), "0-5");
    assert_eq!(p.count(), 0);
    assert_eq!(hp.to_range_string(), "6-7");
}

#[test]
fn cpuset_directories() {
    let mut root = CpusetRoot { path: None };
    assert_eq!(base_cpuset(&root), "/dev/cpuset/AppOpt");
    set_base_cpuset(&mut root, "Games");
    assert_eq!(base_cpuset(&root), "/dev/cpuset/Games");
    assert_eq!(cpuset_dir_path(&root, "0-3"), "/dev/cpuset/Games/0-3");
    assert_eq!(cpuset_dir_path(&root, ""), "/dev/cpuset/Games");
    assert!(matches!(create_cpuset_dir(Mkdir::Failed, None, None, "0-3", "0"), DirPlan::GiveUp));
    assert!(matches!(create_cpuset_dir(Mkdir::Made, None, None, "0-3", "0"), DirPlan::Fill));
    assert!(matches!(
        create_cpuset_dir(Mkdir::AlreadyThere, Some("0-3\n"), Some("0\n"), "0-3", "0"),
        DirPlan::Ready
    ));
    assert!(matches!(
        create_cpuset_dir(Mkdir::AlreadyThere, Some("0-2\n"), Some("0\n"), "0-3", "0"),
        DirPlan::Fill
    ));
    let t = six_and_two();
    assert_eq!(ensure_cpuset_dir(&set_of(&[0, 1]), &t, true), "0-1");
    assert_eq!(ensure_cpuset_dir(&set_of(&[0, 1]), &t, false), "");
    let mut synced = false;
    assert!(sync_init_once(&mut synced));
    assert!(!sync_init_once(&mut synced));
}

#[test]
fn topology_of_the_machine() {
    let mut t = init_cpu_topo(
        Some("0-7\n"),
        &vec![policy("policy0", "1", "0 1 2 3 4 5"), policy("policy6", "2", "6 7")],
        true,
        Some("0\n"),
    );
    assert_eq!(t.present_str, "0-7");
    assert_eq!(t.present_cpus.count(), 8);
    assert_eq!(t.mems_str, "0");
    assert_eq!(t.hp_core.to_range_string(), "6-7");
    enable_cpuset(&mut t, true, false);
    assert!(!t.cpuset_enabled);
    enable_cpuset(&mut t, true, true);
    assert!(t.cpuset_enabled);
}

#[test]
fn lines_of_the_grammar() {
    assert_eq!(strip_comment("a=1 # x"), "a=1");
    assert_eq!(comment_at("a=1 # x"), Some(3));
    assert_eq!(comment_at("规则  // x"), Some(6));
    assert_eq!(comment_at("a#1"), None);
    assert!(is_skip_line("  # x") && is_skip_line("// x") && is_skip_line("   ") && !is_skip_line("a"));
    assert!(spec_like("0-3,5") && spec_like("hp-core"));
    assert!(!spec_like("hello"));
    assert_eq!(split_rule_line("a=0-3 }"), Some(("a", "0-3", true)));
    assert_eq!(split_rule_line("a = 0-3"), Some(("a", "0-3", false)));
    assert!(close_like("}"));
    assert_eq!(split_single_line("com.example.app{heavy_thread}=6-7"), Some(("com.example.app", "heavy_thread", "6-7")));
    assert_eq!(split_single_line("com.a{}=4"), Some(("com.a", "}", "4")));
    assert_eq!(split_single_line("com.a{=4"), None);
    assert!(matches!(parse_outer("com.a {"), OuterLine::BareOpen { pkg: "com.a" }));
    assert!(matches!(parse_outer("com.a=1"), OuterLine::Rule { pkg: "com.a", cpus: "1", open: false }));
    assert_eq!(parse_rule_spec("0-3,5"), (String::from("0-3,5"), -1, -1));
    assert_eq!(parse_rule_spec("0-3-100-900"), (String::from("0-3"), 100, 900));
    assert_eq!(parse_rule_spec("0-3-100-1025"), (String::from("0-3-100-1025"), -1, -1));
}

#[test]
fn the_documented_forms() {
    let text = "# comment\n\ncom.example.app=4-5\n\ncom.example.game {\n    main_thread=0-3\n    render_*=4-5\n    worker_?=6\n}\n// other\ncom.example.app{heavy_thread}=6-7\n\ncom.example.mixed=0-3 {\n    bg_thread=4-5\n}\n";
    assert_eq!(
        rules_of(text),
        vec![
            "com.example.app||4-5||-1|-1",
            "com.example.game|main_thread|0-3||-1|-1",
            "com.example.game|render_*|4-5||-1|-1",
            "com.example.game|worker_?|6||-1|-1",
            "com.example.app|heavy_thread|6-7||-1|-1",
            "com.example.mixed||0-3||-1|-1",
            "com.example.mixed|bg_thread|4-5||-1|-1",
        ]
    );
    let cfg = parsed(text);
    assert!(cfg.pkgs.contains("com.example.app"));
    assert!(cfg.has_thread_rules.contains("com.example.game"));
}

#[test]
fn core_names_and_numbers_make_the_same_rules() {
    let named = "com.tencent.tmgp.sgame=e-core,p-core {\n    UnityMain=hp-core\n    UnityGfxDeviceW=p-core,hp-core\n}\n";
    let plain = "com.tencent.tmgp.sgame=0-5 {\n    UnityMain=6-7\n    UnityGfxDeviceW=6-7\n}\n";
    assert_eq!(rules_of(named), rules_of(plain));
}

#[test]
fn blocks_are_compact_lines() {
    let block = "com.a {\n  t=0-1\n}\n";
    let compact = "com.a{t}=0-1\n";
    assert_eq!(rules_of(block), rules_of(compact));
}

#[test]
fn comments_change_no_rule() {
    assert_eq!(rules_of("com.a=1\n# com.b=2\n//com.c=3\ncom.d=4 # tail\n"), rules_of("com.a=1\ncom.d=4\n"));
}

#[test]
fn rules_without_cpus_are_refused() {
    let mut rules: Vec<AffinityRule> = Vec::new();
    let t = six_and_two();
    assert!(!add_rule(&mut rules, &t, "com.a", "", "99"));
    assert!(add_rule(&mut rules, &t, "com.a", "", "0-9"));
    assert_eq!(rules[0].cpus.to_range_string(), "0-7");
    assert!(printable("com.a") && !printable("a\u{1}b"));
}

#[test]
fn loading_goes_by_the_time_of_the_file() {
    let t = six_and_two();
    let mut last = -1i64;
    let mut fails = 0usize;
    assert!(load_config(None, Some("com.a=1"), &t, &mut last, &mut fails).is_none());
    let c = load_config(Some(5), Some("com.a=1\ncom.b=99\n"), &t, &mut last, &mut fails).unwrap();
    assert_eq!(c.rules.len(), 1);
    assert_eq!(last, 5);
    assert_eq!(fails, 1);
    assert!(load_config(Some(5), Some("com.a=1"), &t, &mut last, &mut fails).is_none());
}

#[test]
fn rules_get_directories() {
    let mut cfg = parsed("com.a=0-1\ncom.b=2\n");
    assert_eq!(wanted_dir(&cfg.rules[0], &cfg.topo), Some(String::from("0-1")));
    settle_cpuset_dirs(&mut cfg, &vec![true, false]);
    assert_eq!(cfg.rules[0].cpuset_dir, "0-1");
    assert_eq!(cfg.rules[1].cpuset_dir, "");
}

#[test]
fn the_store_tells_changes() {
    let mut st = ConfigStore::new();
    assert!(!config_reload(&mut st, Some(parsed("com.a=1\n"))));
    assert!(st.current.is_none());
    assert!(take_cpu_rules_changed(&mut st));
    assert!(!take_cpu_rules_changed(&mut st));
    st.current = Some(parsed("com.a=1\n"));
    assert!(config_reload(&mut st, Some(parsed("com.a=3\n"))));
    assert!(take_cpu_rules_changed(&mut st));
    assert!(!config_reload(&mut st, Some(parsed("com.a=3\nrefresh_timeout=9\n"))));
    assert!(!take_cpu_rules_changed(&mut st));
    assert!(!config_reload(&mut st, None));
    assert_eq!(st.current.as_ref().unwrap().refresh_timeout, 9);
    let _ = config_reload_now(&mut st, Some(parsed("com.a=2\n")));
    assert!(st.cpu_rules_changed);
    reload_refresh_only(&mut st, Some("refresh_timeout=12\ncom.b=refresh-5-90-60\n"));
    assert_eq!(st.current.as_ref().unwrap().refresh_timeout, 12);
    assert_eq!(st.current.as_ref().unwrap().app_refresh_configs.get("com.b"), Some(&(5, 2, 1)));
    assert!(cpu_config_changed(&parsed("com.a=1"), &parsed("com.a=2")));
    assert!(!cpu_config_changed(&parsed("com.a=1"), &parsed("#x\ncom.a=1")));
}

#[test]
fn requests_wake_the_loader() {
    let mut st = ConfigStore::new();
    assert!(matches!(request_config_reload(&st), ReloadRequest::ReloadNow));
    st.wake_fd = 7;
    assert!(matches!(request_config_reload(&st), ReloadRequest::Wake));
    set_kpm_arm_req(&mut st, true);
    assert_eq!(take_kpm_arm_req(&mut st), 1);
    assert_eq!(take_kpm_arm_req(&mut st), 0);
    set_kpm_arm_req(&mut st, false);
    assert_eq!(take_kpm_arm_req(&mut st), -1);
}

#[test]
fn kinds_of_lines() {
    assert!(matches!(classify_line("# x"), LineKind::Skip));
    assert!(matches!(classify_line("refresh_timeout=30"), LineKind::Global));
    assert!(matches!(classify_line("com.a=1"), LineKind::Pkg(p) if p == "com.a"));
    assert!(matches!(classify_line("com.a {"), LineKind::Block(p) if p == "com.a"));
    assert_eq!(pkg_of_line("com.a=refresh-5-90-60"), Some(String::from("com.a")));
}

#[test]
fn tidying_brings_packages_together() {
    let mut current = NameSet::new();
    current.insert("com.a");
    let text = "com.a=1\ncom.b=2\ncom.a{t}=3\n";
    let tidy = organize_config(text, &current);
    assert_eq!(tidy.as_deref(), Some("com.a=1\ncom.a{t}=3\ncom.b=2\n"));
    current.insert("com.b");
    assert!(organize_config(text, &current).is_none());
    assert_eq!(file_text(&vec![String::from("a"), String::from("b")]), "a\nb\n");
    let lines: Vec<String> = ["com.a {", "  t=1", "}", "com.b=2"].iter().map(|s| String::from(*s)).collect();
    assert_eq!(last_pkg_end_index(&lines, "com.a"), Some(3));
    assert_eq!(last_pkg_end_index(&lines, "com.x"), None);
    assert_eq!(last_pkg_end_index(&lines, "com"), None);
    let compact: Vec<String> = ["com.a{t}=1", "com.b\t=2", "com.ab=3"].iter().map(|s| String::from(*s)).collect();
    assert_eq!(last_pkg_end_index(&compact, "com.a"), Some(1));
    assert_eq!(last_pkg_end_index(&compact, "com.b"), Some(2));
}

#[test]
fn a_file_of_the_packages_in_force_stays() {
    let text = "com.b=refresh-30-120-60\ncom.a=1\ncom.a{t}=3\n";
    let (cfg, _) = parse_config(text, &six_and_two());
    let current = current_config_pkg_set(Some(&cfg));
    assert!(current.contains("com.a") && current.contains("com.b") && current.names.len() == 2);
    assert!(organize_config(text, &current).is_none());
    assert!(current_config_pkg_set(None).names.is_empty());
}

#[test]
fn the_plain_grammar() {
    let t = six_and_two();
    let (cfg, bad) = plain_rules::parse_plain("f.conf", "com.a=0-3\ncom.a {\n r_*=6-7\n}\n", &t);
    let v: Vec<String> = cfg.rules.iter().map(|r| format!("{}|{}|{}", r.pkg, r.thread, r.cpus.to_range_string())).collect();
    assert_eq!(v, vec!["com.a||0-3", "com.a|r_*|6-7"]);
    assert_eq!(bad, 0);
    assert_eq!(cfg.config_file, "f.conf");
    let mut last = 3i64;
    assert!(plain_rules::load_config("f", Some(3), Some("com.a=1"), &t, &mut last).is_none());
    let mut store = plain_rules::PlainStore { current: None, updated: false };
    let loaded = plain_rules::load_config("f", Some(4), Some("com.a=1"), &t, &mut last).unwrap();
    plain_rules::try_reload_config(&mut store, Some(loaded.0));
    assert!(!store.updated && store.current.is_none());
    store.current = Some(plain_rules::parse_plain("f", "com.b=2", &t).0);
    plain_rules::try_reload_config(&mut store, Some(plain_rules::parse_plain("f", "com.c=3", &t).0));
    assert!(store.updated && store.current.unwrap().pkgs.contains("com.c"));
}
