//! Moving the threads of one process: their names, and what is done to each.
use std::collections::HashSet;
use vstd::prelude::*;

use crate::cpuset;
use crate::cpuset::{CpuSet, CpusetRoot};
use crate::number;
use crate::placement;
use crate::proc_text;
use crate::proc_text::ThreadNameCache;

verus! {

broadcast use {vstd::string::group_string_axioms, vstd::std_specs::hash::group_hash_axioms};

/// There is no such thread.
pub const ESRCH: i32 = 3;

/// What is done to a thread.
pub enum ThreadMove {
    /// It runs where it should.
    Stay,
    /// It is given its CPUs. Where there is a cpuset, a line is first added to
    /// that file.
    Go { tasks: Option<(String, String)> },
}

/// What is done to a thread that should run on `cpus`, with the directory for
/// them.
pub open spec fn is_move(
    tid: i32,
    current: Option<CpuSet>,
    cpus: Set<int>,
    dir: Seq<char>,
    cpuset_enabled: bool,
    r: ThreadMove,
) -> bool {
    match r {
        ThreadMove::Stay => current matches Some(c) && c@ == cpus,
        ThreadMove::Go { tasks } => {
            &&& !(current matches Some(c) && c@ == cpus)
            &&& match tasks {
                Some((file, line)) => cpuset_enabled && file@ == dir + "/tasks"@ && line@
                    == number::dec_int(tid as int) + seq!['\n'],
                None => !cpuset_enabled,
            }
        },
    }
}

/// A thread that runs where it should stays; any other is moved, and where there
/// are cpusets it is written, by its number, to the directory for its CPUs.
pub proof fn threads_are_moved_where_they_belong(
    tid: i32,
    current: CpuSet,
    cpus: Set<int>,
    dir: Seq<char>,
    cpuset_enabled: bool,
    r: ThreadMove,
)
    requires
        tid >= 0,
    ensures
        is_move(tid, Some(current), cpus, dir, cpuset_enabled, r) ==> (r is Stay <==> forall|c: int|
            current@.contains(c) <==> cpus.contains(c)),
        is_move(tid, None, cpus, dir, cpuset_enabled, r) ==> r is Go,
        is_move(tid, None, cpus, dir, true, r) ==> (r matches ThreadMove::Go {
            tasks: Some((file, line)),
        } && file@ == dir + "/tasks"@ && line@ == number::dec(tid as nat).push('\n')),
        is_move(tid, None, cpus, dir, false, r) ==> (r matches ThreadMove::Go { tasks: None }),
{
    if forall|c: int| current@.contains(c) <==> cpus.contains(c) {
        assert(current@ =~= cpus);
    }
    let d = number::dec(tid as nat);
    assert(d + seq!['\n'] =~= d.push('\n'));
}

/// What is done to a thread whose CPUs are `current` and should be `cpus`.
pub fn apply_thread_affinity(
    tid: i32,
    current: Option<CpuSet>,
    cpus: &CpuSet,
    cpuset_dir: &str,
    root: &CpusetRoot,
    cpuset_enabled: bool,
) -> (r: ThreadMove)
    ensures
        is_move(tid, current, cpus@, cpuset::dir_path(*root, cpuset_dir@), cpuset_enabled, r),
{
    if !placement::is_misplaced(current, cpus) {
        return ThreadMove::Stay;
    }
    if !cpuset_enabled {
        return ThreadMove::Go { tasks: None };
    }
    let file = placement::tasks_path(root, cpuset_dir);
    let mut line = String::new();
    number::push_i32(&mut line, tid);
    line.push('\n');
    assert(line@ =~= number::dec_int(tid as int) + seq!['\n']);
    ThreadMove::Go { tasks: Some((file, line)) }
}

/// Whether the thread has ended, so that the process is to be looked at again,
/// by how giving it its CPUs went.
pub fn thread_ended(errno: Option<i32>) -> (r: bool)
    ensures
        r == (errno == Some(ESRCH)),
{
    match errno {
        Some(e) => e == ESRCH,
        None => false,
    }
}

/// A thread of the process and its name, where it could be read.
pub struct ReadThread {
    pub tid: i32,
    pub comm: Option<String>,
}

/// The names that are kept, and since when.
#[verifier::ext_equal]
pub ghost struct KeptNames {
    pub names: Map<i32, Seq<char>>,
    pub since: int,
}

/// The contents of a [`ThreadNameCache`].
pub open spec fn kept_names(c: ThreadNameCache) -> KeptNames {
    KeptNames {
        names: c.names@.map_values(|s: String| s@),
        since: c.last_full_refresh as int,
    }
}

/// The names that are still kept at `now`.
pub open spec fn fresh(k: KeptNames, now: int) -> KeptNames {
    if now - k.since >= proc_text::THREAD_NAME_CACHE_TTL_SECS {
        KeptNames { names: Map::empty(), since: now }
    } else {
        k
    }
}

/// The name that was read; empty where none was.
pub open spec fn read_name(t: ReadThread) -> Seq<char> {
    match t.comm {
        Some(s) => s@,
        None => seq![],
    }
}

/// What is kept once the name of `t` has been asked for.
pub open spec fn asked(k: KeptNames, t: ReadThread, now: int) -> KeptNames {
    let f = fresh(k, now);
    if f.names.contains_key(t.tid) {
        f
    } else {
        KeptNames { names: f.names.insert(t.tid, read_name(t)), ..f }
    }
}

/// What is kept once the names of the first `n` threads have been asked for.
pub open spec fn asked_after(k: KeptNames, ts: Seq<ReadThread>, n: nat, now: int) -> KeptNames
    decreases n,
{
    if n == 0 {
        k
    } else {
        asked(asked_after(k, ts, (n - 1) as nat, now), ts[n - 1], now)
    }
}

/// The numbers of the threads.
pub open spec fn tids_of(ts: Seq<ReadThread>) -> Set<i32> {
    Set::new(|t: i32| exists|i: int| 0 <= i < ts.len() && (#[trigger] ts[i]).tid == t)
}

/// The name under which the rules are asked for thread `i`: empty where no rule
/// names a thread.
pub open spec fn rule_name(
    k: KeptNames,
    ts: Seq<ReadThread>,
    i: int,
    has_thread_rules: bool,
    now: int,
) -> Seq<char> {
    if has_thread_rules {
        asked_after(k, ts, (i + 1) as nat, now).names[ts[i].tid]
    } else {
        seq![]
    }
}

fn ask(cache: &mut ThreadNameCache, t: &ReadThread, now: i64) -> (r: String)
    ensures
        kept_names(*final(cache)) == asked(kept_names(*old(cache)), *t, now as int),
        r@ == kept_names(*final(cache)).names[t.tid],
{
    let ghost k = kept_names(*cache);
    let ghost before = cache.names@;
    let ghost stale = proc_text::is_stale(*cache, now as int);
    let ghost kept = if stale {
        Map::<i32, String>::empty()
    } else {
        before
    };
    let read: Option<String> = match &t.comm {
        Some(s) => Some(s.clone()),
        None => None,
    };
    let r = cache.get_or_read(t.tid, now, read);
    proof {
        let after = kept_names(*cache);
        let f = fresh(k, now as int);
        assert(f.names =~= kept.map_values(|s: String| s@));
        if !kept.contains_key(t.tid) {
            assert forall|x: i32| x != t.tid && kept.contains_key(x) implies #[trigger] cache.names@[x]
                == kept[x] by {
                assert(cache.names@.remove(t.tid)[x] == kept[x]);
            }
            assert(after.names =~= f.names.insert(t.tid, read_name(*t)));
        } else {
            assert(after.names =~= f.names);
        }
        assert(after =~= asked(k, *t, now as int));
    }
    r
}

/// The threads of a process under the names by which the rules are asked for
/// them. Names are read only where a rule names a thread; those of threads that
/// have ended are forgotten.
pub fn refresh_process_rules(
    has_thread_rules: bool,
    cache: &mut ThreadNameCache,
    threads: &Vec<ReadThread>,
    now: i64,
) -> (r: Vec<(i32, String)>)
    ensures
        r@.len() == threads@.len(),
        forall|i: int|
            0 <= i < r@.len() ==> (#[trigger] r@[i]).0 == threads@[i].tid && r@[i].1@ == rule_name(
                kept_names(*old(cache)),
                threads@,
                i,
                has_thread_rules,
                now as int,
            ),
        ({
            let all = if has_thread_rules {
                asked_after(kept_names(*old(cache)), threads@, threads@.len(), now as int)
            } else {
                kept_names(*old(cache))
            };
            kept_names(*final(cache)) == KeptNames {
                names: all.names.restrict(tids_of(threads@)),
                since: all.since,
            }
        }),
{
    let ghost k = kept_names(*cache);
    let ghost ts = threads@;
    let mut r: Vec<(i32, String)> = Vec::new();
    let mut current: HashSet<i32> = HashSet::new();
    let mut i: usize = 0;
    proof {
        assert(current@ =~= tids_of(ts.take(0)));
    }
    while i < threads.len()
        invariant
            i <= threads.len(),
            ts == threads@,
            r@.len() == i,
            current@ == tids_of(ts.take(i as int)),
            kept_names(*cache) == (if has_thread_rules {
                asked_after(k, ts, i as nat, now as int)
            } else {
                k
            }),
            forall|j: int|
                0 <= j < i ==> (#[trigger] r@[j]).0 == ts[j].tid && r@[j].1@ == rule_name(
                    k,
                    ts,
                    j,
                    has_thread_rules,
                    now as int,
                ),
        decreases threads.len() - i,
    {
        let t = &threads[i];
        current.insert(t.tid);
        proof {
            let a = ts.take(i as int);
            let b = ts.take(i + 1);
            assert(b[i as int].tid == t.tid);
            assert forall|x: i32| tids_of(b).contains(x) <==> tids_of(a).contains(x) || x
                == t.tid by {
                if tids_of(a).contains(x) {
                    let j = choose|j: int| 0 <= j < a.len() && (#[trigger] a[j]).tid == x;
                    assert(b[j] == a[j]);
                }
                if tids_of(b).contains(x) {
                    let j = choose|j: int| 0 <= j < b.len() && (#[trigger] b[j]).tid == x;
                    assert(j == i || a[j] == b[j]);
                }
            }
            assert(current@ =~= tids_of(b));
        }
        let name: String = if has_thread_rules {
            ask(cache, t, now)
        } else {
            String::new()
        };
        assert(!has_thread_rules ==> name@ =~= Seq::<char>::empty());
        r.push((t.tid, name));
        i += 1;
    }
    let ghost all = kept_names(*cache);
    cache.retain(&current);
    proof {
        assert(ts.take(ts.len() as int) =~= ts);
        assert(kept_names(*cache).names =~= all.names.restrict(tids_of(ts)));
    }
    r
}

/// A name that was read is used for a minute; then it is read anew.
pub proof fn names_are_kept_for_a_minute(k: KeptNames, t: ReadThread, now: int)
    ensures
        k.names.contains_key(t.tid) && now - k.since < 60 ==> asked(k, t, now) == k,
        !k.names.contains_key(t.tid) || now - k.since >= 60 ==> asked(k, t, now).names[t.tid]
            == read_name(t),
        now - k.since >= 60 ==> asked(k, t, now).since == now,
        asked(k, t, now).names.contains_key(t.tid),
{
}

} // verus!
