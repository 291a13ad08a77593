//! The mode that walks `/proc`: when to walk it, and what a walk finds.
use std::collections::HashSet;

use vstd::prelude::*;

use crate::cache;
use crate::cache::{ProcCache, TaskView};
use crate::config::AppConfig;
use crate::number;
use crate::placement;
use crate::rule_match;

verus! {

broadcast use {vstd::string::group_string_axioms, vstd::std_specs::hash::group_hash_axioms};

/// How many new processes make a walk worth while.
pub const PROC_JUMP: i64 = 11;

/// What the walks of `/proc` have found so far.
pub struct ProcScanState {
    pub cache: ProcCache,
    pub last_proc_count: i32,
    /// The next walk looks at all processes, not just those that have rules.
    pub scan_all_proc: bool,
    pub tracked_pids: HashSet<i32>,
    pub last_proc_total: i32,
    /// All placements are to be made anew.
    pub force_affinity: bool,
}

impl ProcScanState {
    /// Before the first walk.
    pub fn new() -> (r: ProcScanState)
        ensures
            r.cache.wf(),
            cache::task_views(r.cache.tasks@) == Map::<i32, TaskView>::empty(),
            r.last_proc_count == 0,
            !r.scan_all_proc,
            r.tracked_pids@ == Set::<i32>::empty(),
            r.last_proc_total == 0,
            !r.force_affinity,
    {
        let c = ProcCache::new();
        assert(cache::task_views(c.tasks@) =~= Map::<i32, TaskView>::empty());
        ProcScanState {
            cache: c,
            last_proc_count: 0,
            scan_all_proc: false,
            tracked_pids: HashSet::new(),
            last_proc_total: 0,
            force_affinity: false,
        }
    }
}

/// A thread of a process: its number, its name, and for each rule whether its
/// pattern matches the name.
pub struct ThreadInfo {
    pub tid: i32,
    pub comm: String,
    pub hits: Vec<bool>,
}

/// A directory of `/proc`: its name, the name of the process where it could be
/// read, and its threads.
pub struct ProcInfo {
    pub name: String,
    pub proc_name: Option<String>,
    pub threads: Vec<ThreadInfo>,
}

/// There is a match result for every rule.
pub open spec fn fits_rules(p: ProcInfo, cfg: AppConfig) -> bool {
    forall|i: int|
        0 <= i < p.threads@.len() ==> (#[trigger] p.threads@[i]).hits@.len() == cfg.rules@.len()
}

/// The entries after the first `n` threads of a process, and whether one of
/// those threads was placed.
pub open spec fn threads_after(
    m: Map<i32, TaskView>,
    cfg: AppConfig,
    pid: i32,
    pkg: Seq<char>,
    threads: Seq<ThreadInfo>,
    n: nat,
) -> (Map<i32, TaskView>, bool)
    decreases n,
{
    if n == 0 {
        (m, false)
    } else {
        let (m1, any) = threads_after(m, cfg, pid, pkg, threads, (n - 1) as nat);
        let t = threads[n - 1];
        let (m2, placed) = cache::after_apply(
            m1,
            t.tid,
            pid,
            pkg,
            rule_match::affinity_of(
                cfg,
                t.hits@,
                pkg,
                cache::name_for(cfg, pkg, t.comm@),
            ),
            false,
        );
        (m2, any || placed)
    }
}

/// Notes the threads of a process; whether one of them was placed.
pub fn proc_tasks(
    pid: i32,
    pkg: &str,
    cfg: &AppConfig,
    cache: &mut ProcCache,
    threads: &Vec<ThreadInfo>,
) -> (r: bool)
    requires
        old(cache).wf(),
        forall|i: int|
            0 <= i < threads@.len() ==> (#[trigger] threads@[i]).hits@.len() == cfg.rules@.len(),
    ensures
        final(cache).wf(),
        (cache::task_views(final(cache).tasks@), r) == threads_after(
            cache::task_views(old(cache).tasks@),
            *cfg,
            pid,
            pkg@,
            threads@,
            threads@.len(),
        ),
{
    let ghost m = cache::task_views(cache.tasks@);
    let mut any: bool = false;
    let mut i: usize = 0;
    while i < threads.len()
        invariant
            i <= threads.len(),
            cache.wf(),
            forall|i: int|
                0 <= i < threads@.len() ==> (#[trigger] threads@[i]).hits@.len()
                    == cfg.rules@.len(),
            (cache::task_views(cache.tasks@), any) == threads_after(
                m,
                *cfg,
                pid,
                pkg@,
                threads@,
                i as nat,
            ),
        decreases threads.len() - i,
    {
        let t = &threads[i];
        let placed: bool = cache.task_apply(
            t.tid,
            pid,
            pkg,
            t.comm.as_str(),
            cfg,
            &t.hits,
            false,
        );
        any = any || placed;
        i += 1;
    }
    any
}

/// The process number that a directory of `/proc` stands for.
pub open spec fn pid_of(name: Seq<char>) -> Option<int> {
    number::signed(name, i32::MIN as int, i32::MAX as int)
}

/// How many of the first `n` directories stand for processes.
pub open spec fn process_count(procs: Seq<ProcInfo>, n: nat) -> nat
    decreases n,
{
    if n == 0 {
        0
    } else if pid_of(procs[n - 1].name@) is Some {
        process_count(procs, (n - 1) as nat) + 1
    } else {
        process_count(procs, (n - 1) as nat)
    }
}

/// The walk looks at this process: it is among those that are followed, or the
/// walk looks at all; its name could be read; and it has rules.
pub open spec fn is_looked_at(
    p: ProcInfo,
    cfg: AppConfig,
    scan_all: bool,
    followed: Set<i32>,
) -> bool {
    match (pid_of(p.name@), p.proc_name) {
        (Some(pid), Some(name)) => (scan_all || followed.contains(pid as i32))
            && cfg.pkgs@.contains(name@),
        _ => false,
    }
}

/// The entries after the first `n` directories, and how many of those processes
/// had a thread placed.
pub open spec fn walk_after(
    cfg: AppConfig,
    procs: Seq<ProcInfo>,
    scan_all: bool,
    followed: Set<i32>,
    n: nat,
) -> (Map<i32, TaskView>, nat)
    decreases n,
{
    if n == 0 {
        (Map::empty(), 0)
    } else {
        let (m, c) = walk_after(cfg, procs, scan_all, followed, (n - 1) as nat);
        let p = procs[n - 1];
        if is_looked_at(p, cfg, scan_all, followed) {
            let (m2, any) = threads_after(
                m,
                cfg,
                pid_of(p.name@)->0 as i32,
                p.proc_name->0@,
                p.threads@,
                p.threads@.len(),
            );
            (
                m2,
                if any {
                    c + 1
                } else {
                    c
                },
            )
        } else {
            (m, c)
        }
    }
}

/// Notes afresh the threads that have rules; how many processes had a thread
/// placed. `procs` holds the directories of `/proc`; where they could not be
/// read, no thread is noted. After a walk the next one looks at all processes if
/// there are more of them than last time.
pub fn proc_scan(
    cfg: &AppConfig,
    state: &mut ProcScanState,
    procs: Option<&Vec<ProcInfo>>,
) -> (r: usize)
    requires
        procs matches Some(ps) ==> ps@.len() <= i32::MAX && forall|i: int|
            0 <= i < ps@.len() ==> fits_rules(#[trigger] ps@[i], *cfg),
    ensures
        final(state).cache.wf(),
        match procs {
            Some(ps) => {
                &&& (cache::task_views(final(state).cache.tasks@), r as nat) == walk_after(
                    *cfg,
                    ps@,
                    old(state).scan_all_proc,
                    old(state).tracked_pids@,
                    ps@.len(),
                )
                &&& final(state).last_proc_total == process_count(ps@, ps@.len())
                &&& final(state).scan_all_proc == (process_count(ps@, ps@.len()) > old(
                    state,
                ).last_proc_total)
            },
            None => {
                &&& r == 0
                &&& cache::task_views(final(state).cache.tasks@) == Map::<i32, TaskView>::empty()
                &&& final(state).last_proc_total == old(state).last_proc_total
                &&& final(state).scan_all_proc == old(state).scan_all_proc
            },
        },
        final(state).tracked_pids == old(state).tracked_pids,
        final(state).last_proc_count == old(state).last_proc_count,
        final(state).force_affinity == old(state).force_affinity,
{
    match procs {
        Some(ps) => walk(cfg, state, ps),
        None => {
            state.cache.clear();
            assert(cache::task_views(state.cache.tasks@) =~= Map::<i32, TaskView>::empty());
            0
        },
    }
}

/// Walks the directories of `/proc`.
fn walk(cfg: &AppConfig, state: &mut ProcScanState, procs: &Vec<ProcInfo>) -> (r: usize)
    requires
        procs@.len() <= i32::MAX,
        forall|i: int| 0 <= i < procs@.len() ==> fits_rules(#[trigger] procs@[i], *cfg),
    ensures
        final(state).cache.wf(),
        (cache::task_views(final(state).cache.tasks@), r as nat) == walk_after(
            *cfg,
            procs@,
            old(state).scan_all_proc,
            old(state).tracked_pids@,
            procs@.len(),
        ),
        final(state).last_proc_total == process_count(procs@, procs@.len()),
        final(state).scan_all_proc == (process_count(procs@, procs@.len()) > old(
            state,
        ).last_proc_total),
        final(state).tracked_pids == old(state).tracked_pids,
        final(state).last_proc_count == old(state).last_proc_count,
        final(state).force_affinity == old(state).force_affinity,
{
    state.cache.clear();
    let mut count: usize = 0;
    let mut total: i32 = 0;
    let ghost scan_all = state.scan_all_proc;
    let ghost followed = state.tracked_pids@;
    let mut i: usize = 0;
    assert(cache::task_views(state.cache.tasks@) =~= Map::<i32, TaskView>::empty());
    while i < procs.len()
        invariant
            i <= procs.len(),
            procs@.len() <= i32::MAX,
            total <= i,
            count <= i,
            forall|i: int| 0 <= i < procs@.len() ==> fits_rules(#[trigger] procs@[i], *cfg),
            state.cache.wf(),
            state.scan_all_proc == scan_all,
            state.tracked_pids@ == followed,
            state.tracked_pids == old(state).tracked_pids,
            state.last_proc_count == old(state).last_proc_count,
            state.last_proc_total == old(state).last_proc_total,
            state.force_affinity == old(state).force_affinity,
            total == process_count(procs@, i as nat),
            (cache::task_views(state.cache.tasks@), count as nat) == walk_after(
                *cfg,
                procs@,
                scan_all,
                followed,
                i as nat,
            ),
        decreases procs.len() - i,
    {
        let p = &procs[i];
        assert(fits_rules(procs@[i as int], *cfg));
        if let Some(pid) = number::parse_i32(p.name.as_str()) {
            total = total + 1;
            if state.scan_all_proc || state.tracked_pids.contains(&pid) {
                if let Some(name) = &p.proc_name {
                    if cfg.pkgs.contains(name.as_str()) {
                        let any: bool = proc_tasks(
                            pid,
                            name.as_str(),
                            cfg,
                            &mut state.cache,
                            &p.threads,
                        );
                        if any {
                            count = count + 1;
                        }
                    }
                }
            }
        }
        i += 1;
    }
    state.scan_all_proc = total > state.last_proc_total;
    state.last_proc_total = total;
    count
}

/// `/proc` is to be walked again: the next walk was to look at all processes, a
/// process that is followed is gone, or there are many more of them, or nobody
/// knows how many.
pub open spec fn is_walk_due(state: ProcScanState, proc_count: Option<i32>, gone: bool) -> bool {
    state.scan_all_proc || gone || (match proc_count {
        Some(n) => n > state.last_proc_count + PROC_JUMP,
        None => true,
    })
}

/// There are a few processes more than last time.
pub open spec fn grew_a_little(state: ProcScanState, proc_count: Option<i32>) -> bool {
    proc_count matches Some(n) && state.last_proc_count < n <= state.last_proc_count + PROC_JUMP
}

/// More than eleven new processes, or one that is gone, make a walk; up to eleven
/// make the placements be made anew without one, and fewer processes nothing.
pub proof fn many_new_processes_make_a_walk(state: ProcScanState, n: i32)
    requires
        !state.scan_all_proc,
    ensures
        n > state.last_proc_count + 11 ==> is_walk_due(state, Some(n), false) && !grew_a_little(
            state,
            Some(n),
        ),
        state.last_proc_count < n <= state.last_proc_count + 11 ==> !is_walk_due(
            state,
            Some(n),
            false,
        ) && grew_a_little(state, Some(n)),
        n <= state.last_proc_count ==> !is_walk_due(state, Some(n), false) && !grew_a_little(
            state,
            Some(n),
        ),
        is_walk_due(state, Some(n), true),
        is_walk_due(state, None, false),
{
}

/// Decides whether `/proc` is to be walked again. `proc_count` is the number of
/// processes that the kernel reports, where it does; `tracked_gone` says that
/// a process that is followed is gone.
pub fn cache_sync_check(
    state: &mut ProcScanState,
    proc_count: Option<i32>,
    tracked_gone: bool,
) -> (r: bool)
    ensures
        r == is_walk_due(*old(state), proc_count, tracked_gone),
        final(state).last_proc_count == (match proc_count {
            Some(n) => n,
            None => old(state).last_proc_count,
        }),
        final(state).force_affinity == (old(state).force_affinity || grew_a_little(
            *old(state),
            proc_count,
        )),
        final(state).cache == old(state).cache,
        final(state).scan_all_proc == old(state).scan_all_proc,
        final(state).tracked_pids == old(state).tracked_pids,
        final(state).last_proc_total == old(state).last_proc_total,
{
    let mut need: bool = state.scan_all_proc;
    match proc_count {
        None => {
            need = true;
        },
        Some(n) => {
            if (n as i64) > state.last_proc_count as i64 + PROC_JUMP {
                need = true;
            } else if n > state.last_proc_count {
                state.force_affinity = true;
            }
            state.last_proc_count = n;
        },
    }
    need || tracked_gone
}

/// The processes of the threads that are noted.
pub open spec fn task_pids(m: Map<i32, TaskView>) -> Set<i32> {
    Set::new(|p: i32| exists|t: i32| m.contains_key(t) && (#[trigger] m[t]).pid == p)
}

/// Ends a walk: from now on the processes of the noted threads are followed,
/// and all placements are to be made anew.
pub fn cache_sync_done(state: &mut ProcScanState)
    requires
        old(state).cache.wf(),
    ensures
        final(state).tracked_pids@ == task_pids(cache::task_views(old(state).cache.tasks@)),
        final(state).force_affinity,
        final(state).cache == old(state).cache,
        final(state).scan_all_proc == old(state).scan_all_proc,
        final(state).last_proc_total == old(state).last_proc_total,
        final(state).last_proc_count == old(state).last_proc_count,
{
    let mut pids: HashSet<i32> = HashSet::new();
    let ghost counts = state.cache.pid_task_counts@;
    let ghost m = state.cache.tasks@;
    let ghost all = vstd::std_specs::iter::IteratorSpec::remaining(
        &vstd::std_specs::hash::spec_keys_iter(&state.cache.pid_task_counts),
    ).unref();
    proof {
        assert(all.take(0).to_set() =~= Set::<i32>::empty());
        assert(all.take(all.len() as int) =~= all);
    }
    for k in it: state.cache.pid_task_counts.keys()
        invariant
            it.seq().unref() == all,
            it.seq().len() == all.len(),
            all.take(all.len() as int) == all,
            all.to_set() == counts.dom(),
            pids@ == all.take(it.index()).to_set(),
    {
        let ghost a = all.take(it.index());
        let ghost b = all.take(it.index() + 1);
        pids.insert(*k);
        proof {
            assert(b =~= a.push(*k));
            assert forall|x: i32| b.contains(x) <==> (a.contains(x) || x == *k) by {
                if a.contains(x) {
                    let j = a.index_of(x);
                    assert(b[j] == x);
                }
                assert(b[a.len() as int] == *k);
            }
            assert(pids@ =~= b.to_set());
        }
    }
    proof {
        let views = cache::task_views(m);
        assert(pids@ =~= counts.dom());
        assert forall|p: i32| counts.dom().contains(p) <==> task_pids(views).contains(p) by {
            let f = cache::of_pid(p);
            let s = m.dom().filter(|t: i32| f(m[t]));
            assert(s.finite());
            assert(state.cache.pid_task_counts@.contains_key(p) <==> cache::count(m, f) > 0);
            vstd::set_lib::lemma_set_empty_equivalency_len(s);
            if task_pids(views).contains(p) {
                let t = choose|t: i32|
                    views.contains_key(t) && (#[trigger] views[t]).pid == p;
                assert(s.contains(t));
            }
            if counts.contains_key(p) {
                let t = s.choose();
                assert(s.contains(t));
                assert(views[t].pid == p);
            }
        }
        assert(counts.dom() =~= task_pids(views));
    }
    state.tracked_pids = pids;
    state.force_affinity = true;
}

/// A thread that is not among those of a process is not touched.
proof fn lemma_others_stay(
    m: Map<i32, TaskView>,
    cfg: AppConfig,
    pid: i32,
    pkg: Seq<char>,
    threads: Seq<ThreadInfo>,
    n: nat,
    tid: i32,
)
    requires
        n <= threads.len(),
        forall|k: int| 0 <= k < n ==> (#[trigger] threads[k]).tid != tid,
    ensures
        ({
            let m2 = threads_after(m, cfg, pid, pkg, threads, n).0;
            m2.contains_key(tid) == m.contains_key(tid) && (m.contains_key(tid) ==> m2[tid]
                == m[tid])
        }),
    decreases n,
{
    if n > 0 {
        lemma_others_stay(m, cfg, pid, pkg, threads, (n - 1) as nat, tid);
        assert(threads[n - 1].tid != tid);
    }
}

/// A thread that is met for the first time is noted with what it gets.
proof fn lemma_thread_noted(
    m: Map<i32, TaskView>,
    cfg: AppConfig,
    pid: i32,
    pkg: Seq<char>,
    threads: Seq<ThreadInfo>,
    n: nat,
    k: int,
)
    requires
        0 <= k < n <= threads.len(),
        !m.contains_key(threads[k].tid),
        forall|j: int| 0 <= j < n && j != k ==> (#[trigger] threads[j]).tid != threads[k].tid,
    ensures
        ({
            let m2 = threads_after(m, cfg, pid, pkg, threads, n).0;
            let t = threads[k];
            match rule_match::affinity_of(
                cfg,
                t.hits@,
                pkg,
                cache::name_for(cfg, pkg, t.comm@),
            ) {
                Some(a) => if a.cpus == Set::<int>::empty() {
                    !m2.contains_key(t.tid)
                } else {
                    m2.contains_key(t.tid) && m2[t.tid].cpus == a.cpus && m2[t.tid].pid == pid
                        && m2[t.tid].pkg == pkg && m2[t.tid].is_thread_rule == a.is_thread_rule
                },
                None => !m2.contains_key(t.tid),
            }
        }),
    decreases n,
{
    let m1 = threads_after(m, cfg, pid, pkg, threads, (n - 1) as nat).0;
    if k < n - 1 {
        lemma_thread_noted(m, cfg, pid, pkg, threads, (n - 1) as nat, k);
        assert(threads[n - 1].tid != threads[k].tid);
    } else {
        assert forall|j: int| 0 <= j < n - 1 implies (#[trigger] threads[j]).tid
            != threads[k].tid by {}
        lemma_others_stay(m, cfg, pid, pkg, threads, (n - 1) as nat, threads[k].tid);
    }
}

/// No other thread of the walk has that number.
pub open spec fn is_only_one(procs: Seq<ProcInfo>, n: nat, i: int, k: int) -> bool {
    forall|a: int, b: int|
        0 <= a < n && 0 <= b < procs[a].threads@.len() && !(a == i && b == k)
            ==> (#[trigger] procs[a].threads@[b]).tid != procs[i].threads@[k].tid
}

proof fn lemma_not_walked(
    cfg: AppConfig,
    procs: Seq<ProcInfo>,
    scan_all: bool,
    followed: Set<i32>,
    n: nat,
    tid: i32,
)
    requires
        n <= procs.len(),
        forall|a: int, b: int|
            0 <= a < n && 0 <= b < procs[a].threads@.len() ==> (
            #[trigger] procs[a].threads@[b]).tid != tid,
    ensures
        !walk_after(cfg, procs, scan_all, followed, n).0.contains_key(tid),
    decreases n,
{
    if n > 0 {
        lemma_not_walked(cfg, procs, scan_all, followed, (n - 1) as nat, tid);
        let m = walk_after(cfg, procs, scan_all, followed, (n - 1) as nat).0;
        let p = procs[n - 1];
        if is_looked_at(p, cfg, scan_all, followed) {
            assert forall|b: int| 0 <= b < p.threads@.len() implies (#[trigger] p.threads@[b]).tid
                != tid by {
                assert(procs[n - 1].threads@[b].tid != tid);
            }
            lemma_others_stay(
                m,
                cfg,
                pid_of(p.name@)->0 as i32,
                p.proc_name->0@,
                p.threads@,
                p.threads@.len(),
                tid,
            );
        }
    }
}

/// A walk notes every thread of a process that has rules, where the walk looks
/// at all processes or follows that one, on just the CPUs that the rules give
/// it. What they give none is not noted, and neither is a thread of a process
/// without rules.
pub proof fn walks_note_the_threads_with_rules(
    cfg: AppConfig,
    procs: Seq<ProcInfo>,
    scan_all: bool,
    followed: Set<i32>,
    n: nat,
    i: int,
    k: int,
    pid: i32,
    name: String,
)
    requires
        cfg.wf(),
        0 <= i < n <= procs.len(),
        0 <= k < procs[i].threads@.len(),
        is_only_one(procs, n, i, k),
        number::signed(procs[i].name@, i32::MIN as int, i32::MAX as int) == Some(pid as int),
        procs[i].proc_name == Some(name),
    ensures
        ({
            let m = walk_after(cfg, procs, scan_all, followed, n).0;
            let t = procs[i].threads@[k];
            let ruled = exists|r: int|
                0 <= r < cfg.rules@.len() && (#[trigger] cfg.rules@[r]).pkg@ == name@;
            if ruled && (scan_all || followed.contains(pid)) {
                match rule_match::affinity_of(cfg, t.hits@, name@, t.comm@) {
                    Some(a) => if a.cpus == Set::<int>::empty() {
                        !m.contains_key(t.tid)
                    } else {
                        m.contains_key(t.tid) && m[t.tid].cpus == a.cpus && m[t.tid].pid == pid
                            && m[t.tid].pkg == name@
                    },
                    None => !m.contains_key(t.tid),
                }
            } else {
                !m.contains_key(t.tid)
            }
        }),
    decreases n,
{
    let t = procs[i].threads@[k];
    let m0 = walk_after(cfg, procs, scan_all, followed, (n - 1) as nat).0;
    let p = procs[n - 1];
    crate::config::packages_are_those_of_the_rules(cfg, name@);
    placement::lemma_names_count_for_thread_rules(cfg, t.hits@, name@, t.comm@);
    if i < n - 1 {
        assert(is_only_one(procs, (n - 1) as nat, i, k));
        walks_note_the_threads_with_rules(
            cfg,
            procs,
            scan_all,
            followed,
            (n - 1) as nat,
            i,
            k,
            pid,
            name,
        );
        if is_looked_at(p, cfg, scan_all, followed) {
            assert forall|b: int| 0 <= b < p.threads@.len() implies (#[trigger] p.threads@[b]).tid
                != t.tid by {
                assert(procs[n - 1].threads@[b].tid != t.tid);
            }
            lemma_others_stay(
                m0,
                cfg,
                pid_of(p.name@)->0 as i32,
                p.proc_name->0@,
                p.threads@,
                p.threads@.len(),
                t.tid,
            );
        }
    } else {
        assert forall|a: int, b: int|
            0 <= a < n - 1 && 0 <= b < procs[a].threads@.len() implies (
        #[trigger] procs[a].threads@[b]).tid != t.tid by {}
        lemma_not_walked(cfg, procs, scan_all, followed, (n - 1) as nat, t.tid);
        assert forall|j: int| 0 <= j < p.threads@.len() && j != k implies (
        #[trigger] p.threads@[j]).tid != p.threads@[k].tid by {
            assert(procs[n - 1].threads@[j].tid != t.tid);
        }
        lemma_thread_noted(m0, cfg, pid, name@, p.threads@, p.threads@.len(), k);
    }
}

} // verus!
