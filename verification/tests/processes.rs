//! Processes, threads and where they run.
use std::collections::{HashMap, HashSet};

use appopt::cache::{ProcCache, TaskEntry, TaskPlan};
use appopt::config::{parse_config, settle_cpuset_dirs, AppConfig};
use appopt::cpu_affinity::{
    cgroup_apps_pids, cpu_known_evict, cpu_known_evict_by_pid, cpu_known_is_hot,
    cpu_known_pid_to_uid, cpu_stats, threads_named, AppProcs, CpuAction, CpuAffinity, CpuKnown,
    CpuMsg,
};
use appopt::cpuset::{CpuSet, CpuTopology, CpusetRoot};
use appopt::names::{NameMap, NameSet};
use appopt::placement::{
    group_by_dir, is_misplaced, resolve, tasks_path, to_set, to_write, uclamp_values, Placement,
};
use appopt::proc_mode::{
    cache_sync_check, cache_sync_done, proc_scan, proc_tasks, ProcInfo, ProcScanState, ThreadInfo,
};
use appopt::proc_text::{
    classify_marked_pids, proc_pid_set, proc_uid, read_cmdline, resolve_pkg, same_pkg, task_tids,
    tid_comm, NamedProc, ThreadNameCache,
};
use appopt::rule_match::{fnmatch_c, pkg_match, thread_affinity};
use appopt::status::{cache_stats, rule_groups, spec_name, status_report};
use appopt::thread_move::{
    apply_thread_affinity, refresh_process_rules, thread_ended, ReadThread, ThreadMove,
};
use appopt::uid_scan::{by_package, on_uid, pkg_to_uid, Marked, ScannedProc};

fn set_of(cpus: &[usize]) -> CpuSet {
    let mut s = CpuSet::new();
    for c in cpus {
        s.set(*c);
    }
    s
}

fn config_of(content: &str) -> AppConfig {
    let topo = CpuTopology {
        present_cpus: set_of(&[0, 1, 2, 3, 4, 5, 6, 7]),
        present_str: String::from("0-7"),
        mems_str: String::from("0"),
        cpuset_enabled: true,
        e_core: set_of(&[0, 1, 2, 3, 4, 5]),
        p_core: CpuSet::new(),
        hp_core: set_of(&[6, 7]),
    };
    parse_config(content, &topo).0
}

fn thread(tid: i32, comm: &str, hits: &[bool]) -> ThreadInfo {
    ThreadInfo { tid, comm: String::from(comm), hits: hits.to_vec() }
}

#[test]
fn names_of_processes() {
    assert_eq!(read_cmdline(b"com.a:push\0--x\0").as_deref(), Some("com.a:push"));
    assert_eq!(read_cmdline(b"/system/bin/ sh \0").as_deref(), Some("sh"));
    assert_eq!(read_cmdline(b"\0"), None);
    assert_eq!(read_cmdline(b""), None);
    assert_eq!(read_cmdline(&[0xff, 0xfe, 0]), None);
    assert_eq!(tid_comm(b"RenderThread\n").as_deref(), Some("RenderThread"));
    let names: Vec<String> = ["1", "x", "42"].iter().map(|s| String::from(*s)).collect();
    assert_eq!(task_tids(&names), vec![1, 42]);
    assert_eq!(proc_pid_set(&names).len(), 2);
    assert_eq!(proc_uid("Name:\tx\nUid:\t10001\t10001\n"), Some(10001));
    assert_eq!(proc_uid("Name:\tx\n"), None);
    assert!(same_pkg("com.a:push", "com.a") && same_pkg("com.a", "com.a") && !same_pkg("com.ab", "com.a"));
    let mut pkgs = NameSet::new();
    pkgs.insert("com.a");
    assert_eq!(resolve_pkg("com.a:push", &pkgs).as_deref(), Some("com.a"));
    assert_eq!(resolve_pkg("com.b", &pkgs), None);
    let (home, bars) = classify_marked_pids(&vec![NamedProc { pid: 4, cmd: None }]);
    assert!(home.is_empty() && bars.is_empty());
}

#[test]
fn thread_names_are_kept() {
    let mut c = ThreadNameCache::new(0);
    assert_eq!(c.get_or_read(1, 10, Some(String::from("a"))), "a");
    assert_eq!(c.get_or_read(1, 20, Some(String::from("b"))), "a");
    assert!(!c.needs_read(1, 59) && c.needs_read(1, 60) && c.needs_read(2, 20));
    assert_eq!(c.get_or_read(1, 60, Some(String::from("b"))), "b");
    let mut current: HashSet<i32> = HashSet::new();
    current.insert(2);
    c.retain(&current);
    assert!(c.names.is_empty());
    let threads = vec![
        ReadThread { tid: 5, comm: Some(String::from("x")) },
        ReadThread { tid: 6, comm: None },
    ];
    let named = refresh_process_rules(true, &mut c, &threads, 61);
    assert_eq!(named, vec![(5, String::from("x")), (6, String::new())]);
    assert_eq!(c.names.len(), 2);
    let named = refresh_process_rules(false, &mut c, &vec![ReadThread { tid: 6, comm: None }], 62);
    assert_eq!(named, vec![(6, String::new())]);
    assert_eq!(c.names.len(), 1);
    c.clear();
    assert_eq!(c.last_full_refresh, 0);
}

#[test]
fn rules_for_threads() {
    let cfg = config_of("com.a=0-3\ncom.a{r_*}=6-7\ncom.a{r_1}=5-100-900\n");
    let r = thread_affinity("com.a", "main", &cfg, &vec![false, false, false]).unwrap();
    assert_eq!(r.cpus.to_range_string(), "0-3");
    assert!(!r.is_thread_rule);
    let r = thread_affinity("com.a", "r_1", &cfg, &vec![false, true, true]).unwrap();
    assert_eq!(r.cpus.to_range_string(), "5-7");
    assert_eq!((r.util_min, r.util_max), (100, 900));
    assert!(r.is_thread_rule);
    assert!(thread_affinity("com.b", "main", &cfg, &vec![false, false, false]).is_none());
    let only = config_of("com.a{RenderThread}=6-7\n");
    assert!(thread_affinity("com.a", "main", &only, &vec![false]).is_none());
    let clamps = config_of("com.a=-100-200\n");
    let r = thread_affinity("com.a", "main", &clamps, &vec![false]).unwrap();
    assert_eq!((r.cpus.count(), r.util_min, r.util_max), (0, 100, 200));
    assert_eq!(pkg_match("com.a", &cfg), (true, true));
    assert_eq!(pkg_match("com.b", &cfg), (false, false));
    assert!(fnmatch_c("x", true) && !fnmatch_c("x", false));
}

#[test]
fn placements_of_threads() {
    let mut cfg = config_of("com.a=0-3\ncom.a{r_*}=6-7-10-20\n");
    settle_cpuset_dirs(&mut cfg, &vec![true, false]);
    let ts = vec![
        thread(1, "main", &[false, false]),
        thread(2, "r_1", &[false, true]),
        thread(3, "x", &[false, false]),
    ];
    let r = resolve("com.a", &cfg, &ts);
    assert_eq!(r.clamps, vec![(2, 10, 20)]);
    assert_eq!(r.placements.len(), 3);
    assert_eq!(r.placements[0].dir, "0-3");
    assert_eq!(r.groups.len(), 2);
    let groups = group_by_dir(r.placements);
    assert_eq!(groups.iter().map(|g| g.items.len()).sum::<usize>(), 3);
    assert!(is_misplaced(None, &set_of(&[1])) && is_misplaced(Some(set_of(&[2])), &set_of(&[1])));
    assert!(!is_misplaced(Some(set_of(&[1])), &set_of(&[1])));
    assert_eq!(uclamp_values(-1, -1), None);
    assert_eq!(uclamp_values(-1, 2000), Some((0, 1024)));
    assert_eq!(uclamp_values(100, -1), Some((100, 1024)));
    assert_eq!(uclamp_values(100, 200), Some((100, 200)));
    let clamps = config_of("com.a=-100-200\n");
    let r = resolve("com.a", &clamps, &vec![thread(1, "main", &[false])]);
    assert!(r.groups.is_empty() && r.placements.is_empty());
    assert_eq!(r.clamps, vec![(1, 100, 200)]);
    let root = CpusetRoot { path: None };
    assert_eq!(tasks_path(&root, "0-3"), "/dev/cpuset/AppOpt/0-3/tasks");
}

#[test]
fn misplaced_threads_are_set_then_written() {
    let items: Vec<Placement> = [1, 2, 3]
        .iter()
        .map(|t| Placement { tid: *t, cpus: set_of(&[4]), dir: String::from("4") })
        .collect();
    let need = to_set(&items, &vec![Some(set_of(&[4])), None, Some(set_of(&[4, 5]))]);
    assert_eq!(need.iter().map(|p| p.tid).collect::<Vec<i32>>(), vec![2, 3]);
    let after = vec![Some(set_of(&[4])), Some(set_of(&[0]))];
    assert_eq!(to_write(&need, &after, true), vec![3]);
    assert!(to_write(&need, &after, false).is_empty());
}

#[test]
fn every_set_of_cpus_has_its_directory() {
    let mut w = CpuAffinity::new();
    assert_eq!(w.cached_dir(&set_of(&[1])), None);
    w.remember_dir(&set_of(&[1]), String::from("1"));
    assert_eq!(w.cached_dir(&set_of(&[1])).as_deref(), Some("1"));
    assert_eq!(w.cached_dir(&set_of(&[1, 64])), None);
    w.remember_dir(&set_of(&[1, 64]), String::from("1,64"));
    assert_eq!(w.cached_dir(&set_of(&[1, 64])).as_deref(), Some("1,64"));
    assert_eq!(w.cached_dir(&set_of(&[1])).as_deref(), Some("1"));
    w.remember_dir(&set_of(&[1]), String::from("x"));
    assert_eq!(w.cached_dir(&set_of(&[1])).as_deref(), Some("x"));
    assert_eq!(w.cpuset_cache.len(), 2);
}

#[test]
fn moving_one_thread() {
    let root = CpusetRoot { path: None };
    let want = set_of(&[0, 1]);
    assert!(matches!(apply_thread_affinity(7, Some(want), &want, "0-1", &root, true), ThreadMove::Stay));
    assert!(matches!(apply_thread_affinity(7, None, &want, "0-1", &root, false), ThreadMove::Go { tasks: None }));
    match apply_thread_affinity(7, None, &want, "", &root, true) {
        ThreadMove::Go { tasks: Some((file, line)) } => {
            assert_eq!(file, "/dev/cpuset/AppOpt/tasks");
            assert_eq!(line, "7\n");
        }
        _ => panic!(),
    }
    assert!(thread_ended(Some(3)) && !thread_ended(Some(1)) && !thread_ended(None));
}

#[test]
fn tasks_in_the_cache() {
    let cfg = config_of("com.a=0-3\ncom.a{r_*}=6-7\n");
    let mut c = ProcCache::new();
    assert!(matches!(c.task_plan(1, "com.b", "", &cfg, &vec![false, false]), TaskPlan::Nothing));
    assert!(matches!(c.task_plan(1, "com.a", "m", &cfg, &vec![false, false]), TaskPlan::Apply(_)));
    assert!(proc_tasks(9, "com.a", &cfg, &mut c, &vec![thread(1, "m", &[false, false]), thread(2, "r_1", &[false, true])]));
    assert_eq!(c.tasks.len(), 2);
    assert_eq!(c.hit_package_list(), vec!["com.a"]);
    assert_eq!(cache_stats(&c), (2, 1, vec![String::from("com.a")]));
    assert!(matches!(c.task_plan(2, "com.a", "x", &cfg, &vec![false, false]), TaskPlan::Keep));
    assert!(matches!(c.task_plan(2, "com.a", "r_1", &cfg, &vec![false, true]), TaskPlan::Apply(_)));
    assert!(c.remove_task(1) && !c.remove_task(1));
    c.affinity_sync(&vec![2]);
    assert!(c.tasks.is_empty() && c.hit_package_list().is_empty());
    c.put_task(
        4,
        TaskEntry {
            pid: 9,
            pkg: String::from("com.z"),
            cpus: set_of(&[1]),
            cpuset_dir: String::new(),
            is_thread_rule: false,
        },
    );
    assert_eq!(c.hit_package_list(), vec!["com.z"]);
    c.clear();
    assert!(c.tasks.is_empty());
}

#[test]
fn scanning_processes() {
    let cfg = config_of("com.a=0-3\n");
    let mut st = ProcScanState::new();
    let procs = vec![
        ProcInfo {
            name: String::from("100"),
            proc_name: Some(String::from("com.a")),
            threads: vec![thread(100, "m", &[false])],
        },
        ProcInfo { name: String::from("self"), proc_name: None, threads: vec![] },
    ];
    assert_eq!(proc_scan(&cfg, &mut st, Some(&procs)), 0);
    assert!(st.scan_all_proc);
    assert_eq!(proc_scan(&cfg, &mut st, Some(&procs)), 1);
    assert!(!st.scan_all_proc);
    assert_eq!(st.cache.tasks.len(), 1);
    let mut unread = ProcScanState::new();
    unread.last_proc_total = 9;
    assert_eq!(proc_scan(&cfg, &mut unread, None), 0);
    assert_eq!((unread.last_proc_total, unread.scan_all_proc), (9, false));
    assert!(cache_sync_check(&mut st, Some(50), false));
    assert!(!cache_sync_check(&mut st, Some(61), false));
    assert!(st.force_affinity);
    assert!(cache_sync_check(&mut st, Some(61), true));
    assert!(cache_sync_check(&mut st, None, false));
    cache_sync_done(&mut st);
}

#[test]
fn the_worker_places_applications() {
    let mut w = CpuAffinity::new();
    let mut known = CpuKnown { map: HashMap::new() };
    let a = w.handle_msg(&mut known, CpuMsg::ApplyPkg(7, 10001, String::from("com.a")), true, 1000, 500);
    assert!(matches!(a, CpuAction::Idle));
    assert_eq!(w.next_timeout(1200), 300);
    assert!(w.take_due(1499).is_empty());
    let due = w.take_due(1500);
    assert_eq!(due.len(), 1);
    assert_eq!(due[0].pkg, "com.a");
    assert!(w.pending.is_empty());
    w.apply_pkg(&mut known, 7, 10001, "com.a", true, vec![7, 8]);
    assert!(cpu_known_is_hot(&known, 10001, 7));
    assert_eq!(cpu_known_pid_to_uid(&known, 7), Some(10001));
    assert_eq!(cpu_known_evict_by_pid(&mut known, 7), Some(10001));
    assert!(!cpu_known_is_hot(&known, 10001, 7));
    cpu_known_evict(&mut known, 1);
    let (n, list) = w.publish_stats();
    assert_eq!(cpu_stats(&(n, list.clone())).2, list);
    let total = w.apply_all(&vec![AppProcs { pkg: String::from("com.b"), uid: 10002, pids: Some(vec![3]) }]);
    assert_eq!(total, 1);
    assert!(matches!(
        w.handle_msg(&mut known, CpuMsg::PublishStats, true, 0, 0),
        CpuAction::Publish
    ));
    let names: Vec<String> = ["12", "x", "uid_1", "pid_13"].iter().map(|s| String::from(*s)).collect();
    let pids = cgroup_apps_pids(&names);
    assert!(pids.iter().all(|p| *p == 12 || *p == 13));
    assert_eq!(threads_named(&vec![thread(1, "a", &[]), thread(2, "b", &[])], "b"), vec![2]);
}

#[test]
fn processes_of_an_application() {
    let procs = vec![
        ScannedProc { pid: 0, cmd: Some(String::from("com.a")), uid: Some(1) },
        ScannedProc { pid: 3, cmd: Some(String::from("com.a")), uid: None },
        ScannedProc { pid: 4, cmd: Some(String::from("com.a")), uid: Some(10001) },
        ScannedProc { pid: 5, cmd: Some(String::from("com.a:x")), uid: Some(10001) },
        ScannedProc { pid: 9, cmd: Some(String::from("com.b")), uid: Some(10002) },
    ];
    let mut init: HashSet<i32> = HashSet::new();
    let mut found: NameMap<i32> = NameMap::new();
    assert_eq!(pkg_to_uid(&mut found, "com.a", None, &procs, &init), Some(10001));
    assert_eq!(found.get("com.a"), Some(&10001));
    assert_eq!(pkg_to_uid(&mut found, "com.a", Some(7), &procs, &init), Some(10001));
    assert_eq!(pkg_to_uid(&mut found, "com.m", Some(7), &procs, &init), Some(7));
    assert_eq!(pkg_to_uid(&mut found, "com.x", None, &procs, &init), None);
    assert_eq!(on_uid(10001, None, &procs, &init), vec![4, 5]);
    init.insert(4);
    assert_eq!(on_uid(10001, None, &procs, &init), vec![5]);
    assert_eq!(on_uid(10001, Some(&vec![8]), &procs, &init), vec![8]);
    assert!(on_uid(0, None, &procs, &init).is_empty());
    let mut pkgs = NameSet::new();
    pkgs.insert("com.a");
    let marked = vec![
        Marked { pkg: String::from("com.a"), pids: vec![9] },
        Marked { pkg: String::from("com.z"), pids: vec![5] },
    ];
    let m = by_package(&procs, &marked, &pkgs);
    assert_eq!(m.get("com.a"), Some(&vec![9, 3, 4]));
    assert_eq!(m.sorted_keys(), vec!["com.a"]);
}

#[test]
fn what_the_page_shows() {
    let cfg = config_of("com.b=e-core\ncom.a=1\ncom.b{t}=hp-core\n");
    assert_eq!(spec_name(&cfg.topo.hp_core, &cfg.topo), "hp-core");
    assert_eq!(spec_name(&set_of(&[1, 2]), &cfg.topo), "1-2");
    let gs = rule_groups(Some(&cfg));
    assert_eq!(gs.len(), 2);
    let b = gs.iter().find(|g| g.pkg == "com.b").unwrap();
    assert_eq!(b.items.len(), 2);
    assert!(rule_groups(None).is_empty());
    let s = status_report(true, 2, Some(&cfg));
    assert_eq!(s.cores, 8);
    assert_eq!(s.e_core, "0-5");
    assert_eq!(s.interval, 2);
}
