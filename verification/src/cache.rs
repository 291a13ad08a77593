//! The threads that rules have been applied to, in the mode that walks `/proc`.
use std::collections::HashMap;

use vstd::prelude::*;

use crate::config::AppConfig;
use crate::cpuset::CpuSet;
use crate::names::NameMap;
use crate::order;
use crate::rule_match;
use crate::rule_match::AffinityResult;
use crate::text;

verus! {

broadcast use {vstd::string::group_string_axioms, vstd::std_specs::hash::group_hash_axioms};

/// A thread that rules have been applied to.
pub struct TaskEntry {
    pub pid: i32,
    pub pkg: String,
    pub cpus: CpuSet,
    pub cpuset_dir: String,
    /// A rule for threads placed it, not one for the whole package.
    pub is_thread_rule: bool,
}

/// The threads that rules have been applied to, by thread number, with the
/// number of threads of each process and of each package.
pub struct ProcCache {
    pub tasks: HashMap<i32, TaskEntry>,
    pub pid_task_counts: HashMap<i32, u64>,
    pub hit_pkgs: NameMap<u64>,
}

/// How many threads `f` picks.
pub open spec fn count(tasks: Map<i32, TaskEntry>, f: spec_fn(TaskEntry) -> bool) -> nat {
    tasks.dom().filter(|t: i32| f(tasks[t])).len()
}

/// The thread belongs to process `p`.
pub open spec fn of_pid(p: i32) -> spec_fn(TaskEntry) -> bool {
    |e: TaskEntry| e.pid == p
}

/// The thread belongs to package `pkg`.
pub open spec fn of_pkg(pkg: Seq<char>) -> spec_fn(TaskEntry) -> bool {
    |e: TaskEntry| e.pkg@ == pkg
}

/// The packages of the threads.
pub open spec fn hit_packages(tasks: Map<i32, TaskEntry>) -> Set<Seq<char>> {
    Set::new(
        |p: Seq<char>| exists|t: i32| tasks.contains_key(t) && (#[trigger] tasks[t]).pkg@ == p,
    )
}

proof fn lemma_count_remove(m: Map<i32, TaskEntry>, t: i32, f: spec_fn(TaskEntry) -> bool)
    requires
        m.dom().finite(),
        m.contains_key(t),
    ensures
        count(m, f) == count(m.remove(t), f) + if f(m[t]) {
            1nat
        } else {
            0nat
        },
{
    let a = m.dom().filter(|x: i32| f(m[x]));
    let n = m.remove(t);
    let b = n.dom().filter(|x: i32| f(n[x]));
    assert(a.finite());
    if f(m[t]) {
        assert(a =~= b.insert(t));
        assert(!b.contains(t));
    } else {
        assert(a =~= b);
    }
}

proof fn lemma_count_insert(
    m: Map<i32, TaskEntry>,
    t: i32,
    e: TaskEntry,
    f: spec_fn(TaskEntry) -> bool,
)
    requires
        m.dom().finite(),
        !m.contains_key(t),
    ensures
        count(m.insert(t, e), f) == count(m, f) + if f(e) {
            1nat
        } else {
            0nat
        },
{
    let n = m.insert(t, e);
    lemma_count_remove(n, t, f);
    assert(n.remove(t) =~= m);
}

proof fn lemma_count_bound(m: Map<i32, TaskEntry>, f: spec_fn(TaskEntry) -> bool)
    requires
        m.dom().finite(),
    ensures
        count(m, f) <= m.dom().len(),
{
    vstd::set_lib::lemma_len_subset(m.dom().filter(|x: i32| f(m[x])), m.dom());
}

impl ProcCache {
    /// The counts are those of the threads.
    pub open spec fn wf(self) -> bool {
        &&& self.hit_pkgs.wf()
        &&& self.tasks@.dom().finite()
        &&& forall|p: i32|
            #![trigger self.pid_task_counts@.contains_key(p)]
            (self.pid_task_counts@.contains_key(p) <==> count(self.tasks@, of_pid(p)) > 0) && (
            self.pid_task_counts@.contains_key(p) ==> self.pid_task_counts@[p] == count(
                self.tasks@,
                of_pid(p),
            ))
        &&& forall|k: Seq<char>|
            #![trigger self.hit_pkgs@.contains_key(k)]
            (self.hit_pkgs@.contains_key(k) <==> count(self.tasks@, of_pkg(k)) > 0) && (
            self.hit_pkgs@.contains_key(k) ==> self.hit_pkgs@[k] == count(self.tasks@, of_pkg(k)))
    }

    /// No threads.
    pub fn new() -> (r: ProcCache)
        ensures
            r.wf(),
            r.tasks@ == Map::<i32, TaskEntry>::empty(),
    {
        let r = ProcCache {
            tasks: HashMap::new(),
            pid_task_counts: HashMap::new(),
            hit_pkgs: NameMap::new(),
        };
        proof {
            assert forall|f: spec_fn(TaskEntry) -> bool| count(r.tasks@, f) == 0 by {
                assert(r.tasks@.dom().filter(|t: i32| f(r.tasks@[t])) =~= Set::<i32>::empty());
            }
        }
        r
    }

    /// One thread less of a process.
    fn drop_pid_ref(&mut self, pid: i32)
        requires
            old(self).pid_task_counts@.contains_key(pid),
            old(self).pid_task_counts@[pid] > 0,
        ensures
            final(self).tasks == old(self).tasks,
            final(self).hit_pkgs == old(self).hit_pkgs,
            final(self).pid_task_counts@ == if old(self).pid_task_counts@[pid] == 1 {
                old(self).pid_task_counts@.remove(pid)
            } else {
                old(self).pid_task_counts@.insert(
                    pid,
                    (old(self).pid_task_counts@[pid] - 1) as u64,
                )
            },
    {
        let n: u64 = match self.pid_task_counts.get(&pid) {
            Some(n) => *n,
            None => 0,
        };
        if n == 1 {
            self.pid_task_counts.remove(&pid);
        } else {
            self.pid_task_counts.insert(pid, n - 1);
        }
    }

    /// One thread more of a process.
    fn add_pid_ref(&mut self, pid: i32)
        requires
            old(self).pid_task_counts@.contains_key(pid) ==> old(self).pid_task_counts@[pid]
                < u64::MAX,
        ensures
            final(self).tasks == old(self).tasks,
            final(self).hit_pkgs == old(self).hit_pkgs,
            final(self).pid_task_counts@ == old(self).pid_task_counts@.insert(
                pid,
                if old(self).pid_task_counts@.contains_key(pid) {
                    (old(self).pid_task_counts@[pid] + 1) as u64
                } else {
                    1
                },
            ),
    {
        let n: u64 = match self.pid_task_counts.get(&pid) {
            Some(n) => *n,
            None => 0,
        };
        self.pid_task_counts.insert(pid, n + 1);
    }

    /// One thread more of a package.
    fn hit_pkg_add(&mut self, pkg: &str)
        requires
            old(self).hit_pkgs.wf(),
            old(self).hit_pkgs@.contains_key(pkg@) ==> old(self).hit_pkgs@[pkg@] < u64::MAX,
        ensures
            final(self).tasks == old(self).tasks,
            final(self).pid_task_counts == old(self).pid_task_counts,
            final(self).hit_pkgs.wf(),
            final(self).hit_pkgs@ == old(self).hit_pkgs@.insert(
                pkg@,
                if old(self).hit_pkgs@.contains_key(pkg@) {
                    (old(self).hit_pkgs@[pkg@] + 1) as u64
                } else {
                    1
                },
            ),
    {
        let n: u64 = match self.hit_pkgs.get(pkg) {
            Some(n) => *n,
            None => 0,
        };
        self.hit_pkgs.insert(pkg, n + 1);
    }

    /// One thread less of a package.
    fn hit_pkg_del(&mut self, pkg: &str)
        requires
            old(self).hit_pkgs.wf(),
            old(self).hit_pkgs@.contains_key(pkg@),
            old(self).hit_pkgs@[pkg@] > 0,
        ensures
            final(self).tasks == old(self).tasks,
            final(self).pid_task_counts == old(self).pid_task_counts,
            final(self).hit_pkgs.wf(),
            final(self).hit_pkgs@ == if old(self).hit_pkgs@[pkg@] == 1 {
                old(self).hit_pkgs@.remove(pkg@)
            } else {
                old(self).hit_pkgs@.insert(pkg@, (old(self).hit_pkgs@[pkg@] - 1) as u64)
            },
    {
        let n: u64 = match self.hit_pkgs.get(pkg) {
            Some(n) => *n,
            None => 0,
        };
        if n == 1 {
            self.hit_pkgs.remove(pkg);
        } else {
            self.hit_pkgs.insert(pkg, n - 1);
        }
    }

    /// Forgets a thread.
    pub fn remove_task(&mut self, tid: i32) -> (r: bool)
        requires
            old(self).wf(),
        ensures
            final(self).wf(),
            r == old(self).tasks@.contains_key(tid),
            final(self).tasks@ == old(self).tasks@.remove(tid),
    {
        let ghost m = self.tasks@;
        match self.tasks.remove(&tid) {
            Some(e) => {
                proof {
                    assert(self.tasks@ =~= m.remove(tid));
                    assert(e == m[tid]);
                    lemma_count_remove(m, tid, of_pid(e.pid));
                    lemma_count_remove(m, tid, of_pkg(e.pkg@));
                    assert(self.pid_task_counts@.contains_key(e.pid));
                    assert(self.pid_task_counts@[e.pid] == count(m, of_pid(e.pid)));
                    assert(self.hit_pkgs@.contains_key(e.pkg@));
                    assert(self.hit_pkgs@[e.pkg@] == count(m, of_pkg(e.pkg@)));
                }
                let ghost mid = *self;
                self.hit_pkg_del(e.pkg.as_str());
                self.drop_pid_ref(e.pid);
                proof {
                    assert forall|p: i32|
                        count(m, of_pid(p)) == count(m.remove(tid), of_pid(p)) + if e.pid == p {
                            1nat
                        } else {
                            0nat
                        } by {
                        lemma_count_remove(m, tid, of_pid(p));
                    }
                    assert forall|k: Seq<char>|
                        count(m, of_pkg(k)) == count(m.remove(tid), of_pkg(k)) + if e.pkg@ == k {
                            1nat
                        } else {
                            0nat
                        } by {
                        lemma_count_remove(m, tid, of_pkg(k));
                    }
                    assert forall|p: i32|
                        #![trigger self.pid_task_counts@.contains_key(p)]
                        (self.pid_task_counts@.contains_key(p) <==> count(self.tasks@, of_pid(p))
                            > 0) && (self.pid_task_counts@.contains_key(p)
                            ==> self.pid_task_counts@[p] == count(self.tasks@, of_pid(p))) by {
                        assert(mid.pid_task_counts@.contains_key(p) <==> count(m, of_pid(p)) > 0);
                        assert(count(m, of_pid(p)) == count(m.remove(tid), of_pid(p)) + if e.pid
                            == p {
                            1nat
                        } else {
                            0nat
                        });
                    }
                    assert forall|k: Seq<char>|
                        #![trigger self.hit_pkgs@.contains_key(k)]
                        (self.hit_pkgs@.contains_key(k) <==> count(self.tasks@, of_pkg(k)) > 0) && (
                        self.hit_pkgs@.contains_key(k) ==> self.hit_pkgs@[k] == count(
                            self.tasks@,
                            of_pkg(k),
                        )) by {
                        assert(mid.hit_pkgs@.contains_key(k) <==> count(m, of_pkg(k)) > 0);
                        assert(count(m, of_pkg(k)) == count(m.remove(tid), of_pkg(k)) + if e.pkg@
                            == k {
                            1nat
                        } else {
                            0nat
                        });
                    }
                }
                true
            },
            None => {
                assert(m.remove(tid) =~= m);
                assert(self.tasks@ =~= m);
                assert(self.wf());
                false
            },
        }
    }

    /// Notes a thread, in place of what was known of it.
    pub fn put_task(&mut self, tid: i32, e: TaskEntry)
        requires
            old(self).wf(),
        ensures
            final(self).wf(),
            final(self).tasks@ == old(self).tasks@.insert(tid, e),
    {
        let ghost start = self.tasks@;
        let _ = self.remove_task(tid);
        let ghost m = self.tasks@;
        let ghost mid = *self;
        proof {
            lemma_few_tasks(m);
            lemma_count_bound(m, of_pid(e.pid));
            lemma_count_bound(m, of_pkg(e.pkg@));
            lemma_count_insert(m, tid, e, of_pid(e.pid));
            lemma_count_insert(m, tid, e, of_pkg(e.pkg@));
        }
        self.add_pid_ref(e.pid);
        self.hit_pkg_add(e.pkg.as_str());
        self.tasks.insert(tid, e);
        proof {
            assert(self.tasks@ =~= start.insert(tid, e));
            assert(self.tasks@ == m.insert(tid, e));
            assert forall|p: i32|
                #![trigger self.pid_task_counts@.contains_key(p)]
                (self.pid_task_counts@.contains_key(p) <==> count(self.tasks@, of_pid(p)) > 0)
                    && (self.pid_task_counts@.contains_key(p) ==> self.pid_task_counts@[p]
                    == count(self.tasks@, of_pid(p))) by {
                assert(mid.pid_task_counts@.contains_key(p) <==> count(m, of_pid(p)) > 0);
                lemma_count_insert(m, tid, e, of_pid(p));
            }
            assert forall|k: Seq<char>|
                #![trigger self.hit_pkgs@.contains_key(k)]
                (self.hit_pkgs@.contains_key(k) <==> count(self.tasks@, of_pkg(k)) > 0) && (
                self.hit_pkgs@.contains_key(k) ==> self.hit_pkgs@[k] == count(
                    self.tasks@,
                    of_pkg(k),
                )) by {
                assert(mid.hit_pkgs@.contains_key(k) <==> count(m, of_pkg(k)) > 0);
                lemma_count_insert(m, tid, e, of_pkg(k));
            }
        }
    }

    /// The packages whose threads rules have been applied to, in ascending order.
    pub fn hit_package_list(&self) -> (r: Vec<String>)
        requires
            self.wf(),
        ensures
            order::ascending(text::owned(r@)),
            text::owned(r@).to_set() == hit_packages(self.tasks@),
    {
        let r = self.hit_pkgs.sorted_keys();
        proof {
            assert forall|k: Seq<char>| self.hit_pkgs@.dom().contains(k) <==> hit_packages(
                self.tasks@,
            ).contains(k) by {
                let s = self.tasks@.dom().filter(|t: i32| of_pkg(k)(self.tasks@[t]));
                assert(s.finite());
                assert(self.hit_pkgs@.contains_key(k) <==> count(self.tasks@, of_pkg(k)) > 0);
                if hit_packages(self.tasks@).contains(k) {
                    let t = choose|t: i32|
                        self.tasks@.contains_key(t) && (#[trigger] self.tasks@[t]).pkg@ == k;
                    assert(s.contains(t));
                    vstd::set_lib::lemma_set_empty_equivalency_len(s);
                }
                if self.hit_pkgs@.contains_key(k) {
                    let t = s.choose();
                    vstd::set_lib::lemma_set_empty_equivalency_len(s);
                    assert(s.contains(t));
                    assert(self.tasks@[t].pkg@ == k);
                }
            }
            assert(self.hit_pkgs@.dom() =~= hit_packages(self.tasks@));
        }
        r
    }

    /// Forgets all threads.
    pub fn clear(&mut self)
        ensures
            final(self).wf(),
            final(self).tasks@ == Map::<i32, TaskEntry>::empty(),
    {
        *self = ProcCache::new();
    }
}

/// There are no more thread numbers than a 32-bit number has values.
proof fn lemma_few_tasks(m: Map<i32, TaskEntry>)
    requires
        m.dom().finite(),
    ensures
        m.dom().len() <= 0x1_0000_0000,
{
    let f = |t: i32| t as int;
    let all = vstd::set_lib::set_int_range(i32::MIN as int, i32::MAX + 1);
    vstd::set_lib::lemma_int_range(i32::MIN as int, i32::MAX + 1);
    let img = m.dom().map(f);
    assert(vstd::relations::injective(f));
    vstd::set_lib::lemma_map_size(m.dom(), img, f);
    assert(img.subset_of(all));
    vstd::set_lib::lemma_len_subset(img, all);
}

/// The contents of a [`TaskEntry`].
#[verifier::ext_equal]
pub ghost struct TaskView {
    pub pid: i32,
    pub pkg: Seq<char>,
    pub cpus: Set<int>,
    pub cpuset_dir: Seq<char>,
    pub is_thread_rule: bool,
}

impl View for TaskEntry {
    type V = TaskView;

    open spec fn view(&self) -> TaskView {
        TaskView {
            pid: self.pid,
            pkg: self.pkg@,
            cpus: self.cpus@,
            cpuset_dir: self.cpuset_dir@,
            is_thread_rule: self.is_thread_rule,
        }
    }
}

/// The contents of all entries.
pub open spec fn task_views(m: Map<i32, TaskEntry>) -> Map<i32, TaskView> {
    Map::new(|t: i32| m.contains_key(t), |t: i32| m[t]@)
}

/// The name that a thread is matched by: none where the package has no rules
/// for threads.
pub open spec fn name_for(cfg: AppConfig, pkg: Seq<char>, comm: Seq<char>) -> Seq<char> {
    if cfg.has_thread_rules@.contains(pkg) {
        comm
    } else {
        seq![]
    }
}

/// The thread was placed by a rule for threads, and a rule for the whole
/// package must not undo that.
pub open spec fn is_guarded(
    m: Map<i32, TaskView>,
    tid: i32,
    r: rule_match::ResultView,
) -> bool {
    !r.is_thread_rule && m.contains_key(tid) && m[tid].is_thread_rule
}

/// The entries after a thread has had its turn, and whether it is placed. A
/// thread that the rules give no CPUs is not placed. `dead` says that placing it failed because the thread is gone.
pub open spec fn after_apply(
    m: Map<i32, TaskView>,
    tid: i32,
    pid: i32,
    pkg: Seq<char>,
    result: Option<rule_match::ResultView>,
    dead: bool,
) -> (Map<i32, TaskView>, bool) {
    match result {
        None => (m, false),
        Some(r) => if is_guarded(m, tid, r) {
            (m, true)
        } else if r.cpus == Set::<int>::empty() {
            (m, false)
        } else if dead {
            (m.remove(tid), false)
        } else {
            (
                m.insert(
                    tid,
                    TaskView {
                        pid,
                        pkg,
                        cpus: r.cpus,
                        cpuset_dir: r.cpuset_dir,
                        is_thread_rule: r.is_thread_rule,
                    },
                ),
                true,
            )
        },
    }
}

/// What is to be done for a thread.
pub enum TaskPlan {
    /// No rule gives it CPUs.
    Nothing,
    /// It stays as a rule for threads placed it.
    Keep,
    /// It is to be placed.
    Apply(AffinityResult),
}

impl ProcCache {
    /// Works out what is to be done for a thread.
    pub fn task_plan(
        &self,
        tid: i32,
        pkg: &str,
        comm: &str,
        cfg: &AppConfig,
        hits: &Vec<bool>,
    ) -> (r: TaskPlan)
        requires
            hits@.len() == cfg.rules@.len(),
        ensures
            match rule_match::affinity_of(*cfg, hits@, pkg@, name_for(*cfg, pkg@, comm@)) {
                None => r is Nothing,
                Some(v) => if is_guarded(task_views(self.tasks@), tid, v) {
                    r is Keep
                } else if v.cpus == Set::<int>::empty() {
                    r is Nothing
                } else {
                    r matches TaskPlan::Apply(a) && a@ == v
                },
            },
    {
        let empty = String::new();
        assert(empty@ =~= Seq::<char>::empty());
        let name: &str = if cfg.has_thread_rules.contains(pkg) {
            comm
        } else {
            empty.as_str()
        };
        match rule_match::thread_affinity(pkg, name, cfg, hits) {
            None => TaskPlan::Nothing,
            Some(a) => {
                let placed: bool = match self.tasks.get(&tid) {
                    Some(e) => e.is_thread_rule,
                    None => false,
                };
                if !a.is_thread_rule && placed {
                    TaskPlan::Keep
                } else if a.cpus.count() == 0 {
                    assert(a.cpus@ =~= Set::<int>::empty());
                    TaskPlan::Nothing
                } else {
                    assert(a.cpus@ != Set::<int>::empty());
                    TaskPlan::Apply(a)
                }
            },
        }
    }

    /// Gives a thread its turn: works out what the rules give it and notes it,
    /// or forgets it where placing it found it gone. Whether it is placed.
    pub fn task_apply(
        &mut self,
        tid: i32,
        pid: i32,
        pkg: &str,
        comm: &str,
        cfg: &AppConfig,
        hits: &Vec<bool>,
        dead: bool,
    ) -> (r: bool)
        requires
            old(self).wf(),
            hits@.len() == cfg.rules@.len(),
        ensures
            final(self).wf(),
            (task_views(final(self).tasks@), r) == after_apply(
                task_views(old(self).tasks@),
                tid,
                pid,
                pkg@,
                rule_match::affinity_of(*cfg, hits@, pkg@, name_for(*cfg, pkg@, comm@)),
                dead,
            ),
    {
        let ghost m = self.tasks@;
        match self.task_plan(tid, pkg, comm, cfg, hits) {
            TaskPlan::Nothing => false,
            TaskPlan::Keep => true,
            TaskPlan::Apply(a) => {
                if dead {
                    let _ = self.remove_task(tid);
                    assert(task_views(self.tasks@) =~= task_views(m).remove(tid));
                    return false;
                }
                let e = TaskEntry {
                    pid,
                    pkg: pkg.to_owned(),
                    cpus: a.cpus,
                    cpuset_dir: a.cpuset_dir,
                    is_thread_rule: a.is_thread_rule,
                };
                let ghost v = e@;
                self.put_task(tid, e);
                assert(task_views(self.tasks@) =~= task_views(m).insert(tid, v));
                true
            },
        }
    }

    /// Forgets the threads that turned out to be gone when all were placed anew.
    pub fn affinity_sync(&mut self, dead: &Vec<i32>)
        requires
            old(self).wf(),
        ensures
            final(self).wf(),
            final(self).tasks@ == old(self).tasks@.remove_keys(dead@.to_set()),
    {
        let ghost m = self.tasks@;
        let mut i: usize = 0;
        assert(m.remove_keys(dead@.take(0).to_set()) =~= m);
        while i < dead.len()
            invariant
                i <= dead.len(),
                self.wf(),
                self.tasks@ == m.remove_keys(dead@.take(i as int).to_set()),
            decreases dead.len() - i,
        {
            let t: i32 = dead[i];
            let _ = self.remove_task(t);
            proof {
                let a = dead@.take(i as int);
                let b = dead@.take(i + 1);
                assert(b =~= a.push(t));
                assert forall|x: i32| b.contains(x) <==> (a.contains(x) || x == t) by {
                    if a.contains(x) {
                        let k = a.index_of(x);
                        assert(b[k] == x);
                    }
                    assert(b[i as int] == t);
                }
                assert(self.tasks@ =~= m.remove_keys(b.to_set()));
            }
            i += 1;
        }
        assert(dead@.take(dead@.len() as int) =~= dead@);
    }
}

/// A thread that the rules give CPUs is noted with just these, and under its
/// process and package, whatever was known of it, unless a rule for threads has
/// placed it and a rule for the whole package would undo that. A thread that is
/// gone is forgotten. No other thread is touched.
pub proof fn threads_are_noted_as_placed(
    m: Map<i32, TaskView>,
    tid: i32,
    pid: i32,
    pkg: Seq<char>,
    r: rule_match::ResultView,
    c: int,
    other: i32,
)
    requires
        other != tid,
    ensures
        ({
            let kept = !r.is_thread_rule && m.contains_key(tid) && m[tid].is_thread_rule;
            let (live, placed) = after_apply(m, tid, pid, pkg, Some(r), false);
            let (gone, left) = after_apply(m, tid, pid, pkg, Some(r), true);
            &&& kept ==> live == m && gone == m && placed && left
            &&& !kept && r.cpus.contains(c) ==> placed && live.contains_key(tid) && live[tid].cpus
                == r.cpus && live[tid].pid == pid && live[tid].pkg == pkg
                && live[tid].is_thread_rule == r.is_thread_rule && live[tid].cpuset_dir
                == r.cpuset_dir
            &&& !kept && r.cpus.contains(c) ==> !left && !gone.contains_key(tid)
            &&& !kept && r.cpus =~= Set::<int>::empty() ==> live == m && gone == m && !placed
            &&& live.contains_key(other) == m.contains_key(other)
            &&& gone.contains_key(other) == m.contains_key(other)
            &&& m.contains_key(other) ==> live[other] == m[other] && gone[other] == m[other]
        }),
        after_apply(m, tid, pid, pkg, None, false) == (m, false),
        after_apply(m, tid, pid, pkg, None, true) == (m, false),
{
}

/// The counts are right: a process or a package counts as hit as long as one of
/// its threads is noted.
pub proof fn counts_follow_the_threads(cache: ProcCache, tid: i32)
    requires
        cache.wf(),
        cache.tasks@.contains_key(tid),
    ensures
        cache.pid_task_counts@.contains_key(cache.tasks@[tid].pid),
        cache.pid_task_counts@[cache.tasks@[tid].pid] > 0,
        cache.hit_pkgs@.contains_key(cache.tasks@[tid].pkg@),
        hit_packages(cache.tasks@).contains(cache.tasks@[tid].pkg@),
{
    let e = cache.tasks@[tid];
    let a = cache.tasks@.dom().filter(|t: i32| of_pid(e.pid)(cache.tasks@[t]));
    let b = cache.tasks@.dom().filter(|t: i32| of_pkg(e.pkg@)(cache.tasks@[t]));
    assert(a.contains(tid));
    assert(b.contains(tid));
    assert(a.finite() && b.finite());
    assert(a.len() > 0) by {
        if a.len() == 0 {
            assert(a =~= Set::<i32>::empty());
        }
    }
    assert(b.len() > 0) by {
        if b.len() == 0 {
            assert(b =~= Set::<i32>::empty());
        }
    }
    assert(count(cache.tasks@, of_pid(e.pid)) > 0);
    assert(count(cache.tasks@, of_pkg(e.pkg@)) > 0);
}

/// Placing a thread anew with a rule for the whole package never undoes what a
/// rule for threads did.
pub proof fn thread_rules_are_kept(
    m: Map<i32, TaskView>,
    tid: i32,
    pid: i32,
    pkg: Seq<char>,
    r: rule_match::ResultView,
    dead: bool,
)
    requires
        m.contains_key(tid),
        m[tid].is_thread_rule,
        !r.is_thread_rule,
    ensures
        after_apply(m, tid, pid, pkg, Some(r), dead) == (m, true),
{
}

} // verus!
