//! Disguise rules, the kernel module and the main loop's decisions.
use std::collections::HashMap;

use appopt::config::{parse_config, AppConfig};
use appopt::cpu_affinity::{CpuKnown, CpuMsg};
use appopt::cpuset::{CpuSet, CpuTopology};
use appopt::kpm::{
    applied_set_many_command, kpm_key, needs_map, pair_command, ping_ok, prop_file_apply, prop_path,
    srv_active_command, ver_and_cmd, vfc_fg_command, vfc_glob_count_command, vfc_rule_command,
};
use appopt::names::NameMap;
use appopt::session::{apply_config, kpm_full_apply, AppState, KpmCall, Replay, VfcRow};
use appopt::tracepoint::{
    exec_parse, fork_parse, lookup_key, offsets_load, report_named_event, sched_process_exit,
    task_rename, whitelist_matched, TracepointOffsets, EVENT_EXEC, EVENT_EXIT, EVENT_FORK,
    EVENT_RENAME,
};
use appopt::uid_table::{lookup_uid_in_packages_list, Tables};
use appopt::waylay::{
    any_file_rule, load_waylay_rules, parse_package_line, parse_waylay, parse_waylay_line,
    prop_context_for, rebuild_pkg_by_uid, save_waylay_rules, set_prop_rules, take_vfc_changed,
    take_waylay_changed, waylay_file_text, waylay_text_complete, WaylayKind, WaylayRule,
    WaylayStore,
};

fn shown(r: &WaylayRule) -> String {
    format!("{}|{}|{}|{}|{}", r.pkg, r.kind.tag(), r.target, r.from, r.to)
}

fn config_of(content: &str) -> AppConfig {
    let mut all = CpuSet::new();
    all.set(0);
    all.set(1);
    let topo = CpuTopology {
        present_cpus: all,
        present_str: String::from("0-1"),
        mems_str: String::from("0"),
        cpuset_enabled: false,
        e_core: all,
        p_core: CpuSet::new(),
        hp_core: CpuSet::new(),
    };
    parse_config(content, &topo).0
}

fn call(c: &KpmCall) -> String {
    match c {
        KpmCall::Arm => String::from("arm"),
        KpmCall::Disarm => String::from("disarm"),
        KpmCall::VfcApply => String::from("vfc_apply"),
        KpmCall::VfcRuleClear => String::from("vfc_clear"),
        KpmCall::VfcRule(i, r) => format!("vfc {} {} {} {} {} {}", i, r.pkg, r.kind, r.target, r.from, r.to),
        KpmCall::VfcGlobCount(n) => format!("glob {}", n),
        KpmCall::VfcFg(p) => format!("fg {}", p),
        KpmCall::SrvClear => String::from("srv_clear"),
        KpmCall::SrvRule(i, a, b) => format!("srv {} {} {}", i, a, b),
        KpmCall::SrvActive(on) => format!("srv_active {}", on),
        KpmCall::SetPropRules(v) => format!("props {}", v.len()),
        KpmCall::PropFileApply(on) => format!("prop_apply {}", on),
        KpmCall::SyncRedPath => String::from("sync_red"),
        KpmCall::EnsurePropMaps => String::from("maps"),
        KpmCall::RebuildPkgByUid => String::from("by_uid"),
        KpmCall::Armed(on) => format!("armed {}", on),
    }
}

fn calls(v: &[KpmCall]) -> Vec<String> {
    v.iter().map(call).collect()
}

const LIST: &str = "com.a 10001 0 /data/user/0/com.a\ncom.b 10002 0 /data/user/0/com.b\ncom.w 110003 0 /data/user/1/com.w\n";

#[test]
fn words_for_kinds_read_back() {
    for k in [WaylayKind::Src, WaylayKind::Prop, WaylayKind::Red, WaylayKind::RedPath] {
        assert_eq!(WaylayKind::parse(k.tag()), Some(k));
    }
    assert_eq!(WaylayKind::parse("x"), None);
}

#[test]
fn disguise_lines() {
    let rules = parse_waylay(Some(
        "# head\n// head\ncom.a=src-window-widnow\ncom.a = prop-ro.a - ro.b\n*=red-/proc/x-aa-b-b\ncom.b=red-path-/data/a-/data/b\ncom.b=red-path-/data/a-xy-zz\ncom.c=odd-1-2\n=src-a-b\ncom.d=src-a-\n",
    ));
    let v: Vec<String> = rules.iter().map(shown).collect();
    assert_eq!(
        v,
        vec![
            "com.a|src||window|widnow",
            "com.a|prop||ro.a|ro.b",
            "*|red|/proc/x|aa|b-b",
            "com.b|red-path||/data/a|/data/b",
            "com.b|red|/data/a|xy|zz",
        ]
    );
    assert!(parse_waylay_line("com.a=src").is_none());
    assert!(any_file_rule(&rules));
    assert!(waylay_text_complete("com.a=red-/x-a-b\n"));
    assert!(!waylay_text_complete("com.a=red-/x\n"));
}

#[test]
fn saved_rules_read_back() {
    let rules = parse_waylay(Some("com.a=src-a-b\n*=red-/proc/x-aa-bb\ncom.b=red-path-/data/a-/data/b\n"));
    let text = waylay_file_text(&rules);
    assert!(text.starts_with("# waylay"));
    let again: Vec<String> = parse_waylay(Some(&text)).iter().map(shown).collect();
    assert_eq!(again, rules.iter().map(shown).collect::<Vec<String>>());
}

#[test]
fn the_store_of_disguises() {
    let mut st = WaylayStore::new();
    load_waylay_rules(&mut st, Some("com.a=src-a-b\n"));
    assert!(take_waylay_changed(&mut st) && !take_waylay_changed(&mut st));
    assert!(!take_vfc_changed(&mut st));
    let red = parse_waylay(Some("com.a=red-/x-a-b\n"));
    assert!(!save_waylay_rules(&mut st, parse_waylay(Some("com.a=red-/x-a-b\n")), false));
    assert_eq!(st.rules.len(), 1);
    assert!(save_waylay_rules(&mut st, red, true));
    assert!(st.changed && take_vfc_changed(&mut st));
    load_waylay_rules(&mut st, None);
    assert!(st.rules.is_empty() && st.vfc_changed);
}

#[test]
fn contexts_of_properties() {
    let files = vec![
        String::from("# x\nro. u:object_r:default_prop:s0\nro.build. u:object_r:build_prop:s0 exact\n"),
        String::from("ro.build. u:object_r:other:s0\n"),
    ];
    assert_eq!(prop_context_for("ro.build.id", &files).as_deref(), Some("u:object_r:build_prop:s0"));
    assert_eq!(prop_context_for("ro.x", &files).as_deref(), Some("u:object_r:default_prop:s0"));
    assert_eq!(prop_context_for("sys.x", &files), None);
    let mut st = WaylayStore::new();
    set_prop_rules(
        &mut st,
        vec![
            (String::from("sys.x"), String::from("1")),
            (String::from("ro.x"), String::from("2")),
        ],
        &files,
    );
    assert_eq!(st.prop_ctx, vec![(String::from("ro.x"), String::from("u:object_r:default_prop:s0"))]);
}

#[test]
fn package_lists() {
    assert_eq!(parse_package_line("com.a 10001 0 /x"), Some((10001, "com.a")));
    assert_eq!(parse_package_line("com.a x"), None);
    let rules = parse_waylay(Some("com.w=src-a-b\ncom.a=src-a-b\n"));
    let m = rebuild_pkg_by_uid(&rules, Some(LIST));
    assert_eq!(m.get(&10001).map(|s| s.as_str()), Some("com.a"));
    assert_eq!(m.get(&10002), None);
    assert_eq!(m.get(&110003).map(|s| s.as_str()), Some("com.w"));
    assert_eq!(lookup_uid_in_packages_list("com.b", Some(LIST)), Some(10002));
    assert_eq!(lookup_uid_in_packages_list("com.x", Some(LIST)), None);
}

#[test]
fn tables_by_user() {
    let cfg = config_of("com.a=0\ncom.b=refresh-5-90-60\n");
    let mut t = Tables::new(Some(&cfg), Some(LIST));
    let e = t.uid_map.get(10001).unwrap();
    assert!(e.cpu && !e.rfr && e.pkg == "com.a");
    assert!(t.uid_map.get(10002).unwrap().rfr);
    assert_eq!(t.pkg_uid.get("com.b"), Some(&10002));
    assert!(t.uid_map.get(110003).is_none());
    let other = config_of("com.b=1\n");
    t.rebuild_uid_if_needed(false, &other, Some(LIST));
    assert!(t.uid_map.get(10002).unwrap().cpu);
}

#[test]
fn commands_to_the_module() {
    assert_eq!(ver_and_cmd(0x1022), 0x1158_1022);
    assert_eq!(ver_and_cmd(-1), 0x1158_ffff);
    assert_eq!(kpm_key(None), "su");
    assert_eq!(kpm_key(Some("")), "su");
    assert_eq!(kpm_key(Some("k")), "k");
    assert!(ping_ok(0, &b"pong".to_vec()) && !ping_ok(-1, &b"pong".to_vec()) && !ping_ok(0, &vec![]));
    assert_eq!(srv_active_command(true), "srv_active 1");
    assert_eq!(pair_command("srv_rule", 3, "a", "b"), "srv_rule 3 a b");
    let row = VfcRow {
        pkg: String::from("com.a"),
        kind: String::from("red"),
        target: String::from("/t"),
        from: String::from("x"),
        to: String::from("y"),
    };
    assert_eq!(vfc_rule_command(2, &row), "vfc_rule 2 com.a red /t x y");
    assert_eq!(vfc_glob_count_command(1), "vfc_glob_count 1");
    assert_eq!(vfc_fg_command("com.a"), "vfc_fg com.a");
    assert_eq!(applied_set_many_command(192, &vec![7, 80]), "applied_set_many 192 7 80");
    assert_eq!(prop_path("u:r:x"), "/dev/__properties__/u:r:x");
    assert!(needs_map(&vec![String::from("a")], "b") && !needs_map(&vec![String::from("a")], "a"));
}

#[test]
fn a_disguise_is_undone() {
    let rules = vec![(String::from("abc"), String::from("xyz")), (String::from("lo"), String::from("longer"))];
    let mut b = b"..abcabc..lo".to_vec();
    prop_file_apply(&mut b, &rules, true);
    assert_eq!(b, b"..xyzxyz..lo".to_vec());
    prop_file_apply(&mut b, &rules, false);
    assert_eq!(b, b"..abcabc..lo".to_vec());
}

#[test]
fn arming_sends_the_rules() {
    let mut st = AppState::new(None, None);
    let mut store = WaylayStore::new();
    load_waylay_rules(&mut store, Some("com.b=red-/x-aa-bb\ncom.a=red-path-/a-/b\n*=red-/y-c-d\ncom.b=red-/w-e-f\n"));
    store.changed = false;
    assert!(st.wants_init(1) && !st.wants_init(-1));
    assert_eq!(
        calls(&st.reload(&mut store, 1, true)),
        vec![
            "vfc_clear",
            "vfc 0 * c /y c d",
            "vfc 1 com.a p - /a /b",
            "vfc 2 com.b c /x aa bb",
            "vfc 3 com.b c /w e f",
            "glob 1",
            "fg ",
            "arm",
            "sync_red",
            "vfc_apply",
            "armed true",
        ]
    );
    assert!(st.sync_vfc_rules(&store.rules).is_empty());
    assert_eq!(calls(&st.reload(&mut store, -1, false)), vec!["disarm", "armed false"]);
}

#[test]
fn nothing_is_sent_without_the_module() {
    let mut st = AppState::new(None, None);
    let rules = parse_waylay(Some("com.b=red-/x-aa-bb\n"));
    assert!(st.set_kpm_arm(true, false, &rules).is_empty());
    assert!(!st.kpm);
}

#[test]
fn the_foreground_gets_its_disguise() {
    let cfg = config_of("com.a=0\ncom.b=refresh-5-90-60\n");
    let mut st = AppState::new(Some(&cfg), Some(LIST));
    st.kpm = true;
    let rules = parse_waylay(Some("com.a=src-a-b\ncom.a=prop-ro.x-ro.y\n"));
    let mut by_uid: HashMap<i32, String> = HashMap::new();
    by_uid.insert(10001, String::from("com.a"));
    let known = CpuKnown { map: HashMap::new() };
    let plan = st.on_fg(7, 10001, &by_uid, &rules, &known);
    assert_eq!(
        calls(&plan.calls),
        vec!["fg com.a", "srv_clear", "srv 0 a b", "srv_active true", "props 1", "prop_apply true"]
    );
    assert!(matches!(plan.place, Some(CpuMsg::ApplyPkg(7, 10001, p)) if p == "com.a"));
    assert!(plan.refresh.is_none());
    let again = st.on_fg(7, 10001, &by_uid, &rules, &known);
    assert_eq!(calls(&again.calls), vec!["fg com.a"]);
    let next = st.on_fg(8, 10002, &by_uid, &rules, &known);
    assert_eq!(calls(&next.calls), vec!["fg ", "srv_active false", "prop_apply false"]);
    assert!(next.place.is_none());
    assert_eq!(next.refresh.as_deref(), Some("com.b"));
}

#[test]
fn one_disguise_follows_the_other() {
    let mut st = AppState::new(None, None);
    st.kpm = true;
    let rules = parse_waylay(Some(
        "com.a=src-a-b\ncom.a=prop-ro.x-ro.y\ncom.b=src-c-d\ncom.b=src-e-f\ncom.b=prop-ro.v-ro.w\ncom.c=prop-ro.p-ro.q\n",
    ));
    let by_uid: HashMap<i32, String> = [(1, "com.a"), (2, "com.b"), (3, "com.c")]
        .iter()
        .map(|(u, p)| (*u, String::from(*p)))
        .collect();
    let known = CpuKnown { map: HashMap::new() };
    let _ = st.on_fg(7, 1, &by_uid, &rules, &known);
    let next = st.on_fg(8, 2, &by_uid, &rules, &known);
    assert_eq!(
        calls(&next.calls),
        vec![
            "fg com.b",
            "srv_clear",
            "srv 0 c d",
            "srv 1 e f",
            "srv_active true",
            "prop_apply false",
            "props 1",
            "prop_apply true",
        ]
    );
    let next = st.on_fg(9, 3, &by_uid, &rules, &known);
    assert_eq!(
        calls(&next.calls),
        vec!["fg com.c", "srv_clear", "srv_active true", "prop_apply false", "props 1", "prop_apply true"]
    );
    let mut store = WaylayStore::new();
    load_waylay_rules(&mut store, Some("com.c=prop-ro.p-ro.r\n"));
    assert_eq!(
        calls(&st.reload(&mut store, 0, false)),
        vec![
            "prop_apply false",
            "sync_red",
            "maps",
            "by_uid",
            "srv_clear",
            "srv_active false",
            "props 1",
            "prop_apply true",
        ]
    );
}

#[test]
fn a_module_that_comes_late_gets_everything() {
    let mut st = AppState::new(None, None);
    let mut store = WaylayStore::new();
    load_waylay_rules(&mut store, Some("com.a=src-a-b\n*=red-/y-c-d\n"));
    let by_uid: HashMap<i32, String> = [(1, String::from("com.a"))].into_iter().collect();
    let known = CpuKnown { map: HashMap::new() };
    assert_eq!(calls(&st.reload(&mut store, 0, false)), vec!["sync_red", "maps", "by_uid"]);
    assert!(st.on_fg(7, 1, &by_uid, &store.rules, &known).calls.is_empty());
    assert!(!st.srv_active_cur);
    assert_eq!(
        calls(&st.reload(&mut store, 1, true)),
        vec!["vfc_clear", "vfc 0 * c /y c d", "glob 1", "fg com.a", "arm", "sync_red", "vfc_apply", "armed true"]
    );
    assert_eq!(
        calls(&st.on_fg(7, 1, &by_uid, &store.rules, &known).calls),
        vec!["fg com.a", "srv_clear", "srv 0 a b", "srv_active true"]
    );
}

#[test]
fn changed_rules_reach_the_foreground() {
    let mut st = AppState::new(None, None);
    st.kpm = true;
    st.last_fg_pkg = String::from("com.a");
    let mut store = WaylayStore::new();
    load_waylay_rules(&mut store, Some("com.a=src-a-b\n"));
    assert_eq!(
        calls(&st.reload(&mut store, 0, false)),
        vec!["sync_red", "maps", "by_uid", "srv_clear", "srv 0 a b", "srv_active true", "prop_apply false"]
    );
    assert!(st.reload(&mut store, 0, false).is_empty());
}

#[test]
fn edits_are_replayed() {
    let cfg = config_of("com.a=0\ncom.b=1\n");
    let mut uids: NameMap<i32> = NameMap::new();
    uids.insert("com.a", 10001);
    let edit = |p: &str, t: Option<&str>| Some((String::from(p), t.map(String::from)));
    assert!(matches!(kpm_full_apply(&cfg, &uids, edit("com.a", Some("t"))), Replay::Thread(10001, p, t) if p == "com.a" && t == "t"));
    assert!(matches!(kpm_full_apply(&cfg, &uids, edit("com.a", None)), Replay::Package(10001, p) if p == "com.a"));
    assert!(matches!(kpm_full_apply(&cfg, &uids, edit("com.x", None)), Replay::Nothing));
    assert!(matches!(kpm_full_apply(&cfg, &uids, None), Replay::All(m) if m.sorted_keys() == vec!["com.a"]));
    let mut last = edit("com.a", None);
    assert!(matches!(apply_config(false, Some(&cfg), &uids, &mut last), Replay::Nothing));
    assert!(last.is_some());
    assert!(matches!(apply_config(true, Some(&cfg), &uids, &mut last), Replay::Package(..)));
    assert!(last.is_none());
}

#[test]
fn kernel_events() {
    let off = TracepointOffsets { fork_child_pid: 44, fork_child_comm: 28, rename_newcomm: 28 };
    assert!(offsets_load(Some(off)).is_some());
    assert!(offsets_load(Some(TracepointOffsets { fork_child_pid: 0, ..off })).is_none());
    let mut comm = [0u8; 16];
    comm[..11].copy_from_slice(b"ple.app.big");
    assert!(whitelist_matched(&comm, &vec![*b"e.app.bi"]));
    assert!(!whitelist_matched(&comm, &vec![*b"e.app.bx"]));
    let id = (0x10u64 << 32) | 0x20;
    let m = fork_parse(id, Some(0x30), None);
    assert_eq!((m.pid, m.tid, m.parent_tid, m.parent_tgid), (0x10, 0x30, 0x20, 0x10));
    assert_eq!(m.comm, [0u8; 16]);
    assert_eq!(lookup_key(&m, EVENT_FORK), 0x20);
    let (e, mark) = report_named_event(&m, EVENT_FORK, true, false);
    assert_eq!(e.unwrap().tid, 0x30);
    assert_eq!(mark, Some(0x30));
    assert_eq!(report_named_event(&m, EVENT_FORK, false, true).1, mark);
    let (none, unmarked) = report_named_event(&m, EVENT_FORK, false, false);
    assert!(none.is_none() && unmarked.is_none());
    let x = exec_parse(id, Some(comm));
    assert_eq!(lookup_key(&x, EVENT_EXEC), 0x20);
    assert_eq!(report_named_event(&x, EVENT_EXEC, false, true).1, None);
    assert_eq!(task_rename(id, Some(off), comm, false, true).unwrap().event_type, EVENT_RENAME);
    assert!(task_rename(0x10u64 << 32, Some(off), comm, true, true).is_none());
    assert!(task_rename(id, None, comm, true, true).is_none());
    assert_eq!(sched_process_exit(id, true).unwrap().event_type, EVENT_EXIT);
    assert!(sched_process_exit(id, false).is_none());
}
