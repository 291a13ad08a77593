//! What the rules mean for the threads of an application: which go together,
//! where each is to run, and which clamps it gets.
use vstd::prelude::*;

use crate::cache;
use crate::config::AppConfig;
use crate::cpu_affinity;
use crate::cpu_affinity::CpuAffinity;
use crate::cpuset;
use crate::cpuset::{CpuSet, CpusetRoot};
use crate::proc_mode::ThreadInfo;
use crate::rule_match;
use crate::text;

verus! {

broadcast use {vstd::string::group_string_axioms, vstd::std_specs::hash::group_hash_axioms};

/// Where a thread is to run. An empty directory stands for the one that the
/// CPUs have in the worker's books.
pub struct Placement {
    pub tid: i32,
    pub cpus: CpuSet,
    pub dir: String,
}

/// The contents of a [`Placement`].
#[verifier::ext_equal]
pub ghost struct PlacementView {
    pub tid: i32,
    pub cpus: Set<int>,
    pub dir: Seq<char>,
}

impl View for Placement {
    type V = PlacementView;

    open spec fn view(&self) -> PlacementView {
        PlacementView { tid: self.tid, cpus: self.cpus@, dir: self.dir@ }
    }
}

/// The contents of some placements.
pub open spec fn placement_views(ps: Seq<Placement>) -> Seq<PlacementView> {
    ps.map_values(|p: Placement| p@)
}

/// What the rules give a thread of `pkg`.
pub open spec fn result_for(cfg: AppConfig, pkg: Seq<char>, t: ThreadInfo) -> Option<
    rule_match::ResultView,
> {
    rule_match::affinity_of(cfg, t.hits@, pkg, cache::name_for(cfg, pkg, t.comm@))
}

/// The threads that the rules give something, each with what it gets.
pub open spec fn ruled_threads(cfg: AppConfig, pkg: Seq<char>, ts: Seq<ThreadInfo>) -> Seq<
    (i32, rule_match::ResultView),
>
    decreases ts.len(),
{
    if ts.len() == 0 {
        seq![]
    } else {
        let rest = ruled_threads(cfg, pkg, ts.drop_last());
        match result_for(cfg, pkg, ts.last()) {
            Some(r) => rest.push((ts.last().tid, r)),
            None => rest,
        }
    }
}

/// The threads that are to run on certain CPUs.
pub open spec fn placements_of(rs: Seq<(i32, rule_match::ResultView)>) -> Seq<PlacementView>
    decreases rs.len(),
{
    if rs.len() == 0 {
        seq![]
    } else {
        let rest = placements_of(rs.drop_last());
        let (tid, r) = rs.last();
        if r.cpus != Set::<int>::empty() {
            rest.push(PlacementView { tid, cpus: r.cpus, dir: r.cpuset_dir })
        } else {
            rest
        }
    }
}

/// The threads that get clamps.
pub open spec fn clamps_of(rs: Seq<(i32, rule_match::ResultView)>) -> Seq<(i32, int, int)>
    decreases rs.len(),
{
    if rs.len() == 0 {
        seq![]
    } else {
        let rest = clamps_of(rs.drop_last());
        let (tid, r) = rs.last();
        if r.util_min >= 0 || r.util_max >= 0 {
            rest.push((tid, r.util_min, r.util_max))
        } else {
            rest
        }
    }
}

/// The threads, in their order, that have CPUs, with the first word `w`.
pub open spec fn with_word(rs: Seq<(i32, rule_match::ResultView)>, w: u64) -> Seq<i32>
    decreases rs.len(),
{
    if rs.len() == 0 {
        seq![]
    } else {
        let rest = with_word(rs.drop_last(), w);
        if rs.last().1.cpus != Set::<int>::empty() && cpuset::low_word(rs.last().1.cpus) == w {
            rest.push(rs.last().0)
        } else {
            rest
        }
    }
}

/// The groups put together the threads whose CPUs have the same first word;
/// threads without CPUs stand in none.
pub open spec fn groups_words(
    groups: Seq<(u64, Vec<i32>)>,
    rs: Seq<(i32, rule_match::ResultView)>,
) -> bool {
    &&& forall|i: int, j: int|
        0 <= i < j < groups.len() ==> (#[trigger] groups[i]).0 != (#[trigger] groups[j]).0
    &&& forall|i: int|
        0 <= i < groups.len() ==> (#[trigger] groups[i]).1@ == with_word(rs, groups[i].0)
            && groups[i].1@.len() > 0
    &&& forall|k: int|
        0 <= k < rs.len() && (#[trigger] rs[k]).1.cpus != Set::<int>::empty() ==> has_group(
            groups,
            cpuset::low_word(rs[k].1.cpus),
        )
}

/// There is a group for `w`.
pub open spec fn has_group(groups: Seq<(u64, Vec<i32>)>, w: u64) -> bool {
    exists|i: int| 0 <= i < groups.len() && (#[trigger] groups[i]).0 == w
}

/// What the rules mean for the threads of an application.
pub struct Resolved {
    /// The threads by the first word of their CPUs.
    pub groups: Vec<(u64, Vec<i32>)>,
    pub placements: Vec<Placement>,
    /// Thread, lower clamp and upper clamp.
    pub clamps: Vec<(i32, i32, i32)>,
}

/// The clamps as numbers.
pub open spec fn clamp_views(cs: Seq<(i32, i32, i32)>) -> Seq<(i32, int, int)> {
    cs.map_values(|c: (i32, i32, i32)| (c.0, c.1 as int, c.2 as int))
}

impl Resolved {
    /// This is what the rules mean for these threads.
    pub open spec fn is_of(self, rs: Seq<(i32, rule_match::ResultView)>) -> bool {
        &&& groups_words(self.groups@, rs)
        &&& placement_views(self.placements@) == placements_of(rs)
        &&& clamp_views(self.clamps@) == clamps_of(rs)
    }
}

/// No thread has a word that no group has.
proof fn lemma_no_word(groups: Seq<(u64, Vec<i32>)>, rs: Seq<(i32, rule_match::ResultView)>, w: u64)
    requires
        forall|k: int|
            0 <= k < rs.len() && (#[trigger] rs[k]).1.cpus != Set::<int>::empty() ==> has_group(
                groups,
                cpuset::low_word(rs[k].1.cpus),
            ),
        !has_group(groups, w),
    ensures
        with_word(rs, w) == Seq::<i32>::empty(),
    decreases rs.len(),
{
    if rs.len() > 0 {
        let init = rs.drop_last();
        assert forall|k: int|
            0 <= k < init.len() && (#[trigger] init[k]).1.cpus != Set::<int>::empty() implies has_group(
            groups,
            cpuset::low_word(init[k].1.cpus),
        ) by {
            assert(init[k] == rs[k]);
        }
        lemma_no_word(groups, init, w);
        assert(rs[rs.len() - 1] == rs.last());
    }
}

/// A thread without CPUs leaves the groups as they are.
proof fn lemma_without_cpus(
    groups: Seq<(u64, Vec<i32>)>,
    rs: Seq<(i32, rule_match::ResultView)>,
    tid: i32,
    r: rule_match::ResultView,
)
    requires
        groups_words(groups, rs),
        r.cpus == Set::<int>::empty(),
    ensures
        groups_words(groups, rs.push((tid, r))),
{
    let next = rs.push((tid, r));
    assert(next.drop_last() =~= rs);
    assert forall|k: int|
        0 <= k < next.len() && (#[trigger] next[k]).1.cpus != Set::<int>::empty() implies has_group(
        groups,
        cpuset::low_word(next[k].1.cpus),
    ) by {
        assert(next[k] == rs[k]);
    }
}

/// Puts a thread into its group.
fn add_to_group(
    groups: &mut Vec<(u64, Vec<i32>)>,
    w: u64,
    tid: i32,
    Ghost(rs): Ghost<Seq<(i32, rule_match::ResultView)>>,
    Ghost(r): Ghost<rule_match::ResultView>,
)
    requires
        groups_words(old(groups)@, rs),
        w == cpuset::low_word(r.cpus),
        r.cpus != Set::<int>::empty(),
    ensures
        groups_words(final(groups)@, rs.push((tid, r))),
{
    let ghost next = rs.push((tid, r));
    let ghost g0 = groups@;
    assert(next.drop_last() =~= rs);
    let n: usize = groups.len();
    let mut i: usize = 0;
    while i < n && groups[i].0 != w
        invariant
            i <= n,
            n == groups.len(),
            groups@ == g0,
            forall|j: int| 0 <= j < i ==> (#[trigger] groups@[j]).0 != w,
        decreases n - i,
    {
        i += 1;
    }
    if i < n {
        let mut tids: Vec<i32> = Vec::new();
        let mut k: usize = 0;
        let ghost old_tids = g0[i as int].1@;
        while k < groups[i].1.len()
            invariant
                i < groups.len(),
                groups@ == g0,
                old_tids == g0[i as int].1@,
                k <= old_tids.len(),
                tids@ == old_tids.take(k as int),
            decreases old_tids.len() - k,
        {
            tids.push(groups[i].1[k]);
            k += 1;
            assert(old_tids.take(k as int) =~= old_tids.take(k - 1).push(old_tids[k - 1]));
        }
        assert(tids@ =~= old_tids);
        tids.push(tid);
        groups.set(i, (w, tids));
        proof {
            let g = groups@;
            assert(g0[i as int].1@ == with_word(rs, w));
            assert forall|j: int| 0 <= j < g.len() implies (#[trigger] g[j]).1@ == with_word(
                next,
                g[j].0,
            ) && g[j].1@.len() > 0 by {
                if j != i {
                    assert(g[j] == g0[j]);
                    if j < i {
                        assert(g0[j].0 != w);
                    } else {
                        assert(g0[i as int].0 != g0[j].0);
                    }
                }
            }
            assert forall|x: int, y: int| 0 <= x < y < g.len() implies (#[trigger] g[x]).0 != (
            #[trigger] g[y]).0 by {
                assert(g0[x].0 != g0[y].0);
            }
            assert forall|k: int|
                0 <= k < next.len() && (#[trigger] next[k]).1.cpus != Set::<int>::empty() implies has_group(
                g,
                cpuset::low_word(next[k].1.cpus),
            ) by {
                if k < rs.len() {
                    assert(next[k] == rs[k]);
                    assert(has_group(g0, cpuset::low_word(rs[k].1.cpus)));
                    let x = choose|x: int|
                        0 <= x < g0.len() && (#[trigger] g0[x]).0 == cpuset::low_word(
                            rs[k].1.cpus,
                        );
                    assert(g[x].0 == g0[x].0);
                } else {
                    assert(g[i as int].0 == w);
                }
            }
        }
    } else {
        let mut tids: Vec<i32> = Vec::new();
        tids.push(tid);
        groups.push((w, tids));
        proof {
            let g = groups@;
            assert(!has_group(g0, w));
            lemma_no_word(g0, rs, w);
            assert(tids@ =~= with_word(next, w));
            assert forall|j: int| 0 <= j < g.len() implies (#[trigger] g[j]).1@ == with_word(
                next,
                g[j].0,
            ) && g[j].1@.len() > 0 by {
                if j < g0.len() {
                    assert(g[j] == g0[j]);
                    assert(g0[j].0 != w);
                }
            }
            assert forall|x: int, y: int| 0 <= x < y < g.len() implies (#[trigger] g[x]).0 != (
            #[trigger] g[y]).0 by {
                assert(g[x] == g0[x]);
                if y < g0.len() {
                    assert(g0[x].0 != g0[y].0);
                } else {
                    assert(g0[x].0 != w);
                }
            }
            assert forall|k: int|
                0 <= k < next.len() && (#[trigger] next[k]).1.cpus != Set::<int>::empty() implies has_group(
                g,
                cpuset::low_word(next[k].1.cpus),
            ) by {
                if k < rs.len() {
                    assert(next[k] == rs[k]);
                    assert(has_group(g0, cpuset::low_word(rs[k].1.cpus)));
                    let x = choose|x: int|
                        0 <= x < g0.len() && (#[trigger] g0[x]).0 == cpuset::low_word(
                            rs[k].1.cpus,
                        );
                    assert(g[x].0 == g0[x].0);
                } else {
                    assert(g[g0.len() as int].0 == w);
                }
            }
        }
    }
}

/// Works out what the rules mean for the threads of an application.
pub fn resolve(pkg: &str, cfg: &AppConfig, threads: &Vec<ThreadInfo>) -> (r: Resolved)
    requires
        forall|i: int|
            0 <= i < threads@.len() ==> (#[trigger] threads@[i]).hits@.len() == cfg.rules@.len(),
    ensures
        r.is_of(ruled_threads(*cfg, pkg@, threads@)),
{
    let threaded: bool = cfg.has_thread_rules.contains(pkg);
    let empty = String::new();
    assert(empty@ =~= Seq::<char>::empty());
    let mut groups: Vec<(u64, Vec<i32>)> = Vec::new();
    let mut placements: Vec<Placement> = Vec::new();
    let mut clamps: Vec<(i32, i32, i32)> = Vec::new();
    let mut i: usize = 0;
    let ghost ts = threads@;
    proof {
        assert(ts.take(0) =~= Seq::<ThreadInfo>::empty());
        assert(placement_views(placements@) =~= Seq::<PlacementView>::empty());
        assert(clamp_views(clamps@) =~= Seq::<(i32, int, int)>::empty());
    }
    while i < threads.len()
        invariant
            i <= threads.len(),
            ts == threads@,
            threaded == cfg.has_thread_rules@.contains(pkg@),
            empty@ == Seq::<char>::empty(),
            forall|i: int|
                0 <= i < threads@.len() ==> (#[trigger] threads@[i]).hits@.len()
                    == cfg.rules@.len(),
            groups_words(groups@, ruled_threads(*cfg, pkg@, ts.take(i as int))),
            placement_views(placements@) == placements_of(
                ruled_threads(*cfg, pkg@, ts.take(i as int)),
            ),
            clamp_views(clamps@) == clamps_of(ruled_threads(*cfg, pkg@, ts.take(i as int))),
        decreases threads.len() - i,
    {
        let t = &threads[i];
        let ghost rs = ruled_threads(*cfg, pkg@, ts.take(i as int));
        proof {
            let b = ts.take(i + 1);
            assert(b.drop_last() =~= ts.take(i as int));
            assert(b.last() == ts[i as int]);
        }
        let name: &str = if threaded {
            t.comm.as_str()
        } else {
            empty.as_str()
        };
        if let Some(a) = rule_match::thread_affinity(pkg, name, cfg, &t.hits) {
            let ghost next = rs.push((t.tid, a@));
            assert(next.drop_last() =~= rs);
            let ghost c0 = clamp_views(clamps@);
            let ghost p0 = placement_views(placements@);
            if a.util_min >= 0 || a.util_max >= 0 {
                clamps.push((t.tid, a.util_min, a.util_max));
                assert(clamp_views(clamps@) =~= c0.push(
                    (t.tid, a.util_min as int, a.util_max as int),
                ));
            }
            assert(clamp_views(clamps@) =~= clamps_of(next));
            if a.cpus.count() > 0 {
                assert(a.cpus@ != Set::<int>::empty());
                let w: u64 = a.cpus.first_word();
                add_to_group(&mut groups, w, t.tid, Ghost(rs), Ghost(a@));
                let p = Placement { tid: t.tid, cpus: a.cpus, dir: a.cpuset_dir };
                let ghost v = p@;
                placements.push(p);
                assert(placement_views(placements@) =~= p0.push(v));
            } else {
                assert(a.cpus@ =~= Set::<int>::empty());
                proof {
                    lemma_without_cpus(groups@, rs, t.tid, a@);
                }
            }
            assert(placement_views(placements@) =~= placements_of(next));
        }
        i += 1;
    }
    assert(ts.take(ts.len() as int) =~= ts);
    Resolved { groups, placements, clamps }
}

/// The numbers of the threads that the rules give something.
pub open spec fn ruled_tids(rs: Seq<(i32, rule_match::ResultView)>) -> Set<i32> {
    Set::new(|t: i32| exists|k: int| 0 <= k < rs.len() && (#[trigger] rs[k]).0 == t)
}

/// Adds thread numbers to a list without repeating any.
fn add_tids(list: &mut Vec<i32>, tids: &Vec<i32>)
    requires
        old(list)@.no_duplicates(),
    ensures
        final(list)@.no_duplicates(),
        final(list)@.to_set() == old(list)@.to_set().union(tids@.to_set()),
{
    let ghost start = list@.to_set();
    let mut i: usize = 0;
    assert(list@.to_set() =~= start.union(tids@.take(0).to_set()));
    while i < tids.len()
        invariant
            i <= tids.len(),
            list@.no_duplicates(),
            list@.to_set() == start.union(tids@.take(i as int).to_set()),
        decreases tids.len() - i,
    {
        let t: i32 = tids[i];
        let ghost before = list@;
        let mut k: usize = 0;
        let mut found: bool = false;
        while k < list.len() && !found
            invariant
                k <= list.len(),
                list@ == before,
                !found ==> forall|j: int| 0 <= j < k ==> list@[j] != t,
                found ==> list@.contains(t),
            decreases list.len() - k + if found {
                0int
            } else {
                1int
            },
        {
            if list[k] == t {
                found = true;
                assert(list@[k as int] == t);
            } else {
                k += 1;
            }
        }
        if !found {
            list.push(t);
        }
        proof {
            let a = tids@.take(i as int);
            let b = tids@.take(i + 1);
            assert(b =~= a.push(t));
            assert forall|x: i32| b.contains(x) <==> (a.contains(x) || x == t) by {
                if a.contains(x) {
                    let j = a.index_of(x);
                    assert(b[j] == x);
                }
                assert(b[i as int] == t);
            }
            assert forall|x: i32| list@.contains(x) <==> (before.contains(x) || x == t) by {
                if before.contains(x) {
                    let j = before.index_of(x);
                    assert(list@[j] == x);
                }
                if !found {
                    assert(list@[before.len() as int] == t);
                }
            }
            assert forall|x: i32|
                list@.to_set().contains(x) <==> start.union(b.to_set()).contains(x) by {
                assert(before.to_set().contains(x) <==> start.union(a.to_set()).contains(x));
            }
            assert(list@.to_set() =~= start.union(b.to_set()));
        }
        i += 1;
    }
    assert(tids@.take(tids@.len() as int) =~= tids@);
}

/// Every thread that the rules give something gets CPUs or clamps.
pub open spec fn all_get_something(rs: Seq<(i32, rule_match::ResultView)>) -> bool {
    forall|k: int| 0 <= k < rs.len() ==> gets_something((#[trigger] rs[k]).1)
}

/// There are CPUs, or clamps.
pub open spec fn gets_something(r: rule_match::ResultView) -> bool {
    r.cpus != Set::<int>::empty() || r.util_min >= 0 || r.util_max >= 0
}

proof fn lemma_all_get_something(cfg: AppConfig, pkg: Seq<char>, ts: Seq<ThreadInfo>)
    ensures
        all_get_something(ruled_threads(cfg, pkg, ts)),
    decreases ts.len(),
{
    if ts.len() > 0 {
        lemma_all_get_something(cfg, pkg, ts.drop_last());
    }
}

/// Thread `t` has a placement just where the rules give it CPUs, and clamps
/// just where they give it clamps.
proof fn lemma_parts(rs: Seq<(i32, rule_match::ResultView)>, t: i32)
    ensures
        placements_of(rs).map_values(|p: PlacementView| p.tid).contains(t) <==> exists|k: int|
            0 <= k < rs.len() && (#[trigger] rs[k]).0 == t && rs[k].1.cpus != Set::<int>::empty(),
        clamps_of(rs).map_values(|c: (i32, int, int)| c.0).contains(t) <==> exists|k: int|
            0 <= k < rs.len() && (#[trigger] rs[k]).0 == t && (rs[k].1.util_min >= 0
                || rs[k].1.util_max >= 0),
    decreases rs.len(),
{
    let f = |p: PlacementView| p.tid;
    let g = |c: (i32, int, int)| c.0;
    if rs.len() > 0 {
        let init = rs.drop_last();
        let r = rs.last().1;
        lemma_parts(init, t);
        let pa = placements_of(init).map_values(f);
        let pb = placements_of(rs).map_values(f);
        let ca = clamps_of(init).map_values(g);
        let cb = clamps_of(rs).map_values(g);
        if r.cpus != Set::<int>::empty() {
            assert(pb =~= pa.push(rs.last().0));
            lemma_pushed(pa, rs.last().0, t);
        }
        if r.util_min >= 0 || r.util_max >= 0 {
            assert(cb =~= ca.push(rs.last().0));
            lemma_pushed(ca, rs.last().0, t);
        }
        assert(rs[rs.len() - 1] == rs.last());
        assert forall|k: int| 0 <= k < init.len() implies #[trigger] rs[k] == init[k] by {}
        if pa.contains(t) {
            let k = choose|k: int|
                0 <= k < init.len() && (#[trigger] init[k]).0 == t && init[k].1.cpus != Set::<
                    int,
                >::empty();
            assert(rs[k] == init[k]);
        }
        if ca.contains(t) {
            let k = choose|k: int|
                0 <= k < init.len() && (#[trigger] init[k]).0 == t && (init[k].1.util_min >= 0
                    || init[k].1.util_max >= 0);
            assert(rs[k] == init[k]);
        }
        if exists|k: int|
            0 <= k < rs.len() && (#[trigger] rs[k]).0 == t && rs[k].1.cpus != Set::<int>::empty() {
            let k = choose|k: int|
                0 <= k < rs.len() && (#[trigger] rs[k]).0 == t && rs[k].1.cpus != Set::<
                    int,
                >::empty();
            if k < init.len() {
                assert(init[k] == rs[k]);
                assert(pa.contains(t));
            }
        }
        if exists|k: int|
            0 <= k < rs.len() && (#[trigger] rs[k]).0 == t && (rs[k].1.util_min >= 0
                || rs[k].1.util_max >= 0) {
            let k = choose|k: int|
                0 <= k < rs.len() && (#[trigger] rs[k]).0 == t && (rs[k].1.util_min >= 0
                    || rs[k].1.util_max >= 0);
            if k < init.len() {
                assert(init[k] == rs[k]);
                assert(ca.contains(t));
            }
        }
    }
}

proof fn lemma_pushed(a: Seq<i32>, x: i32, t: i32)
    ensures
        a.push(x).contains(t) <==> a.contains(t) || x == t,
{
    let b = a.push(x);
    if a.contains(t) {
        assert(b[a.index_of(t)] == t);
    }
    assert(b[a.len() as int] == x);
}

/// The numbers of the threads that the rules give something.
fn resolved_tids(res: &Resolved, Ghost(rs): Ghost<Seq<(i32, rule_match::ResultView)>>) -> (r: Vec<
    i32,
>)
    requires
        res.is_of(rs),
        all_get_something(rs),
    ensures
        r@.no_duplicates(),
        r@.to_set() == ruled_tids(rs),
        r@.len() == 0 <==> rs.len() == 0,
{
    let ghost f = |p: PlacementView| p.tid;
    let ghost g = |c: (i32, int, int)| c.0;
    let ghost pv = placement_views(res.placements@);
    let ghost cv = clamp_views(res.clamps@);
    let mut placed: Vec<i32> = Vec::new();
    let mut i: usize = 0;
    while i < res.placements.len()
        invariant
            i <= res.placements.len(),
            pv == placement_views(res.placements@),
            f == (|p: PlacementView| p.tid),
            placed@ == pv.take(i as int).map_values(f),
        decreases res.placements.len() - i,
    {
        placed.push(res.placements[i].tid);
        assert(pv.take(i + 1) =~= pv.take(i as int).push(pv[i as int]));
        assert(placed@ =~= pv.take(i + 1).map_values(f));
        i += 1;
    }
    assert(pv.take(i as int) =~= pv);
    let mut clamped: Vec<i32> = Vec::new();
    let mut k: usize = 0;
    while k < res.clamps.len()
        invariant
            k <= res.clamps.len(),
            cv == clamp_views(res.clamps@),
            g == (|c: (i32, int, int)| c.0),
            clamped@ == cv.take(k as int).map_values(g),
        decreases res.clamps.len() - k,
    {
        clamped.push(res.clamps[k].0);
        assert(cv.take(k + 1) =~= cv.take(k as int).push(cv[k as int]));
        assert(clamped@ =~= cv.take(k + 1).map_values(g));
        k += 1;
    }
    assert(cv.take(k as int) =~= cv);
    let mut r: Vec<i32> = Vec::new();
    add_tids(&mut r, &placed);
    add_tids(&mut r, &clamped);
    proof {
        assert forall|t: i32| r@.contains(t) <==> ruled_tids(rs).contains(t) by {
            lemma_parts(rs, t);
            assert(r@.to_set().contains(t) <==> placed@.to_set().contains(t)
                || clamped@.to_set().contains(t));
            if ruled_tids(rs).contains(t) {
                let k = choose|k: int| 0 <= k < rs.len() && (#[trigger] rs[k]).0 == t;
                assert(gets_something(rs[k].1));
            }
        }
        assert(r@.to_set() =~= ruled_tids(rs));
        if rs.len() > 0 {
            assert(rs[0].0 == rs[0].0);
            assert(ruled_tids(rs).contains(rs[0].0));
            assert(r@.contains(rs[0].0));
        }
        if r@.len() > 0 {
            assert(r@.contains(r@[0]));
        }
    }
    r
}

/// The worker's threads of a package, after some more were placed.
pub open spec fn managed_after(
    m: Map<Seq<char>, Set<i32>>,
    pkg: Seq<char>,
    rs: Seq<(i32, rule_match::ResultView)>,
) -> Map<Seq<char>, Set<i32>> {
    if rs.len() == 0 {
        m
    } else if m.contains_key(pkg) {
        m.insert(pkg, m[pkg].union(ruled_tids(rs)))
    } else {
        m.insert(pkg, ruled_tids(rs))
    }
}

impl CpuAffinity {
    /// Works out what the rules mean for the threads of an application, and
    /// takes those threads into the books.
    pub fn resolve_threads(
        &mut self,
        pkg: &str,
        cfg: &AppConfig,
        threads: &Vec<ThreadInfo>,
    ) -> (r: Resolved)
        requires
            old(self).wf(),
            forall|i: int|
                0 <= i < threads@.len() ==> (#[trigger] threads@[i]).hits@.len()
                    == cfg.rules@.len(),
        ensures
            final(self).wf(),
            r.is_of(ruled_threads(*cfg, pkg@, threads@)),
            crate::cpu_affinity::managed_view(final(self).managed@) == managed_after(
                crate::cpu_affinity::managed_view(old(self).managed@),
                pkg@,
                ruled_threads(*cfg, pkg@, threads@),
            ),
            final(self).uid_pkg == old(self).uid_pkg,
            final(self).cpuset_cache == old(self).cpuset_cache,
            final(self).pending == old(self).pending,
    {
        let r = resolve(pkg, cfg, threads);
        let ghost rs = ruled_threads(*cfg, pkg@, threads@);
        proof {
            lemma_all_get_something(*cfg, pkg@, threads@);
        }
        let tids = resolved_tids(&r, Ghost(rs));
        if tids.len() > 0 {
            self.manage(pkg, &tids);
        }
        proof {
            let m = crate::cpu_affinity::managed_view(old(self).managed@);
            assert(crate::cpu_affinity::managed_view(self.managed@) =~= managed_after(
                m,
                pkg@,
                rs,
            ));
        }
        r
    }

    /// Takes threads of a package into the books.
    fn manage(&mut self, pkg: &str, tids: &Vec<i32>)
        requires
            old(self).wf(),
            tids@.no_duplicates(),
        ensures
            final(self).wf(),
            final(self).uid_pkg == old(self).uid_pkg,
            final(self).cpuset_cache == old(self).cpuset_cache,
            final(self).pending == old(self).pending,
            ({
                let m = crate::cpu_affinity::managed_view(old(self).managed@);
                crate::cpu_affinity::managed_view(final(self).managed@) == m.insert(
                    pkg@,
                    if m.contains_key(pkg@) {
                        m[pkg@].union(tids@.to_set())
                    } else {
                        tids@.to_set()
                    },
                )
            }),
    {
        let ghost before = self.managed;
        let mut list: Vec<i32> = Vec::new();
        match self.managed.get(pkg) {
            Some(old_tids) => {
                add_tids(&mut list, old_tids);
                assert(list@.to_set() =~= old_tids@.to_set());
            },
            None => {},
        }
        add_tids(&mut list, tids);
        let ghost added = list@;
        proof {
            if before@.contains_key(pkg@) {
                assert(added.to_set() =~= before@[pkg@]@.to_set().union(tids@.to_set()));
            } else {
                assert(added.to_set() =~= tids@.to_set());
            }
        }
        self.managed.insert(pkg, list);
        proof {
            assert forall|i: int| 0 <= i < self.managed.entries@.len() implies (
            #[trigger] self.managed.entries@[i]).1@.no_duplicates() by {
                let k = self.managed.entries@[i].0@;
                self.managed.lemma_entry(i);
                if k != pkg@ {
                    assert(before@.contains_key(k));
                    let j = before.keys().index_of(k);
                    assert(before.keys()[j] == k);
                    before.lemma_entry(j);
                    assert(before.entries@[j].1 == self.managed.entries@[i].1);
                }
            }
            let m = crate::cpu_affinity::managed_view(before@);
            assert(crate::cpu_affinity::managed_view(self.managed@) =~= m.insert(
                pkg@,
                if m.contains_key(pkg@) {
                    m[pkg@].union(tids@.to_set())
                } else {
                    tids@.to_set()
                },
            ));
        }
    }

    /// Where the books have the directory of a set of CPUs.
    fn find_dir(&self, cpus: &CpuSet) -> (r: Option<usize>)
        ensures
            match r {
                Some(i) => i < self.cpuset_cache@.len() && self.cpuset_cache@[i as int].0@ == cpus@,
                None => forall|i: int|
                    0 <= i < self.cpuset_cache@.len() ==> (#[trigger] self.cpuset_cache@[i]).0@
                        != cpus@,
            },
    {
        let mut i: usize = 0;
        while i < self.cpuset_cache.len()
            invariant
                i <= self.cpuset_cache@.len(),
                forall|j: int| 0 <= j < i ==> (#[trigger] self.cpuset_cache@[j]).0@ != cpus@,
            decreases self.cpuset_cache@.len() - i,
        {
            if self.cpuset_cache[i].0.same_as(cpus) {
                return Some(i);
            }
            i += 1;
        }
        None
    }

    /// The cpuset directory that a set of CPUs has in the books.
    pub fn cached_dir(&self, cpus: &CpuSet) -> (r: Option<String>)
        requires
            self.wf(),
        ensures
            match r {
                Some(d) => cpu_affinity::dirs_by_set(self.cpuset_cache@).contains_key(cpus@) && d@
                    == cpu_affinity::dirs_by_set(self.cpuset_cache@)[cpus@],
                None => !cpu_affinity::dirs_by_set(self.cpuset_cache@).contains_key(cpus@),
            },
    {
        match self.find_dir(cpus) {
            Some(i) => {
                proof {
                    cpu_affinity::lemma_has_dir(self.cpuset_cache@, i as int);
                }
                Some(self.cpuset_cache[i].1.clone())
            },
            None => {
                proof {
                    cpu_affinity::lemma_has_no_dir(self.cpuset_cache@, cpus@);
                }
                None
            },
        }
    }

    /// Takes the cpuset directory of a set of CPUs into the books.
    pub fn remember_dir(&mut self, cpus: &CpuSet, dir: String)
        requires
            old(self).wf(),
        ensures
            final(self).wf(),
            cpu_affinity::dirs_by_set(final(self).cpuset_cache@) == cpu_affinity::dirs_by_set(
                old(self).cpuset_cache@,
            ).insert(cpus@, dir@),
            final(self).managed == old(self).managed,
            final(self).uid_pkg == old(self).uid_pkg,
            final(self).pending == old(self).pending,
    {
        let ghost before = self.cpuset_cache@;
        match self.find_dir(cpus) {
            Some(i) => {
                proof {
                    cpu_affinity::lemma_other_dir(before, i as int, (*cpus, dir));
                }
                self.cpuset_cache.set(i, (*cpus, dir));
            },
            None => {
                self.cpuset_cache.push((*cpus, dir));
                assert(self.cpuset_cache@.drop_last() =~= before);
            },
        }
    }
}

/// The placements, in their order, that go into one directory.
pub open spec fn in_dir(ps: Seq<PlacementView>, dir: Seq<char>) -> Seq<PlacementView> {
    ps.filter(|p: PlacementView| p.dir == dir)
}

/// Placements with the directory that they go into.
pub struct DirGroup {
    pub dir: String,
    pub items: Vec<Placement>,
}

/// The groups put together the placements that go into the same directory.
pub open spec fn groups_dirs(groups: Seq<DirGroup>, ps: Seq<PlacementView>) -> bool {
    &&& forall|i: int, j: int|
        0 <= i < j < groups.len() ==> (#[trigger] groups[i]).dir@ != (#[trigger] groups[j]).dir@
    &&& forall|i: int|
        0 <= i < groups.len() ==> placement_views((#[trigger] groups[i]).items@) == in_dir(
            ps,
            groups[i].dir@,
        ) && groups[i].items@.len() > 0
    &&& forall|k: int| 0 <= k < ps.len() ==> has_dir(groups, (#[trigger] ps[k]).dir)
}

/// There is a group for `dir`.
pub open spec fn has_dir(groups: Seq<DirGroup>, dir: Seq<char>) -> bool {
    exists|i: int| 0 <= i < groups.len() && (#[trigger] groups[i]).dir@ == dir
}

proof fn lemma_in_dir_push(ps: Seq<PlacementView>, p: PlacementView, dir: Seq<char>)
    ensures
        in_dir(ps.push(p), dir) == if p.dir == dir {
            in_dir(ps, dir).push(p)
        } else {
            in_dir(ps, dir)
        },
{
    reveal(Seq::filter);
    assert(ps.push(p).drop_last() =~= ps);
}

proof fn lemma_no_dir(groups: Seq<DirGroup>, ps: Seq<PlacementView>, dir: Seq<char>)
    requires
        forall|k: int| 0 <= k < ps.len() ==> has_dir(groups, (#[trigger] ps[k]).dir),
        !has_dir(groups, dir),
    ensures
        in_dir(ps, dir) == Seq::<PlacementView>::empty(),
    decreases ps.len(),
{
    if ps.len() == 0 {
        reveal(Seq::filter);
    } else {
        let init = ps.drop_last();
        assert forall|k: int| 0 <= k < init.len() implies has_dir(
            groups,
            (#[trigger] init[k]).dir,
        ) by {
            assert(init[k] == ps[k]);
        }
        lemma_no_dir(groups, init, dir);
        assert(init.push(ps.last()) =~= ps);
        lemma_in_dir_push(init, ps.last(), dir);
        assert(has_dir(groups, ps[ps.len() - 1].dir));
    }
}

/// Puts a placement into the group of its directory.
fn add_to_dir(groups: &mut Vec<DirGroup>, p: Placement, Ghost(ps): Ghost<Seq<PlacementView>>)
    requires
        groups_dirs(old(groups)@, ps),
    ensures
        groups_dirs(final(groups)@, ps.push(p@)),
{
    let ghost v = p@;
    let ghost next = ps.push(v);
    let ghost g0 = groups@;
    let n: usize = groups.len();
    let mut i: usize = 0;
    while i < n && !text::same(groups[i].dir.as_str(), p.dir.as_str())
        invariant
            i <= n,
            n == groups.len(),
            groups@ == g0,
            v == p@,
            forall|j: int| 0 <= j < i ==> (#[trigger] groups@[j]).dir@ != v.dir,
        decreases n - i,
    {
        i += 1;
    }
    if i < n {
        let mut rest: Vec<DirGroup> = groups.split_off(i);
        let mut tail: Vec<DirGroup> = rest.split_off(1);
        let ghost tail0 = tail@;
        let first = rest.pop();
        if let Some(mut g) = first {
            let ghost items0 = placement_views(g.items@);
            g.items.push(p);
            assert(placement_views(g.items@) =~= items0.push(v));
            groups.push(g);
            groups.append(&mut tail);
            proof {
                let gs = groups@;
                assert(gs.len() == g0.len());
                assert forall|j: int| 0 <= j < gs.len() && j != i implies gs[j] == g0[j] by {
                    if j > i {
                        assert(tail0[j - i - 1] == g0[j]);
                    }
                }
                assert(gs[i as int].dir@ == v.dir);
                assert(gs[i as int].dir@ == g0[i as int].dir@);
                assert forall|j: int| 0 <= j < gs.len() implies placement_views(
                    (#[trigger] gs[j]).items@,
                ) == in_dir(next, gs[j].dir@) && gs[j].items@.len() > 0 by {
                    lemma_in_dir_push(ps, v, gs[j].dir@);
                    assert(placement_views(g0[j].items@) == in_dir(ps, g0[j].dir@));
                    if j != i {
                        assert(gs[j] == g0[j]);
                        if j < i {
                            assert(g0[j].dir@ != v.dir);
                        } else {
                            assert(g0[i as int].dir@ != g0[j].dir@);
                        }
                    }
                }
                assert forall|x: int, y: int| 0 <= x < y < gs.len() implies (
                #[trigger] gs[x]).dir@ != (#[trigger] gs[y]).dir@ by {
                    assert(g0[x].dir@ != g0[y].dir@);
                    assert(gs[x].dir@ == g0[x].dir@);
                    assert(gs[y].dir@ == g0[y].dir@);
                }
                assert forall|k: int| 0 <= k < next.len() implies has_dir(
                    gs,
                    (#[trigger] next[k]).dir,
                ) by {
                    if k < ps.len() {
                        assert(next[k] == ps[k]);
                        assert(has_dir(g0, ps[k].dir));
                        let x = choose|x: int|
                            0 <= x < g0.len() && (#[trigger] g0[x]).dir@ == ps[k].dir;
                        assert(gs[x].dir@ == g0[x].dir@);
                    } else {
                        assert(gs[i as int].dir@ == v.dir);
                    }
                }
            }
        }
    } else {
        let dir = p.dir.clone();
        let mut items: Vec<Placement> = Vec::new();
        items.push(p);
        let ghost iv = placement_views(items@);
        groups.push(DirGroup { dir, items });
        proof {
            let gs = groups@;
            assert(!has_dir(g0, v.dir));
            lemma_no_dir(g0, ps, v.dir);
            lemma_in_dir_push(ps, v, v.dir);
            assert(iv =~= in_dir(next, v.dir));
            assert forall|j: int| 0 <= j < gs.len() implies placement_views(
                (#[trigger] gs[j]).items@,
            ) == in_dir(next, gs[j].dir@) && gs[j].items@.len() > 0 by {
                lemma_in_dir_push(ps, v, gs[j].dir@);
                if j < g0.len() {
                    assert(gs[j] == g0[j]);
                    assert(g0[j].dir@ != v.dir);
                }
            }
            assert forall|x: int, y: int| 0 <= x < y < gs.len() implies (#[trigger] gs[x]).dir@
                != (#[trigger] gs[y]).dir@ by {
                assert(gs[x] == g0[x]);
                if y < g0.len() {
                    assert(g0[x].dir@ != g0[y].dir@);
                } else {
                    assert(g0[x].dir@ != v.dir);
                }
            }
            assert forall|k: int| 0 <= k < next.len() implies has_dir(
                gs,
                (#[trigger] next[k]).dir,
            ) by {
                if k < ps.len() {
                    assert(next[k] == ps[k]);
                    assert(has_dir(g0, ps[k].dir));
                    let x = choose|x: int|
                        0 <= x < g0.len() && (#[trigger] g0[x]).dir@ == ps[k].dir;
                    assert(gs[x].dir@ == g0[x].dir@);
                } else {
                    assert(gs[g0.len() as int].dir@ == v.dir);
                }
            }
        }
    }
}

/// Puts the placements together that go into the same directory.
pub fn group_by_dir(ps: Vec<Placement>) -> (r: Vec<DirGroup>)
    ensures
        groups_dirs(r@, placement_views(ps@)),
{
    let ghost all = placement_views(ps@);
    let mut groups: Vec<DirGroup> = Vec::new();
    let mut i: usize = 0;
    while i < ps.len()
        invariant
            i <= ps.len(),
            all == placement_views(ps@),
            groups_dirs(groups@, all.take(i as int)),
        decreases ps.len() - i,
    {
        let p = Placement { tid: ps[i].tid, cpus: ps[i].cpus, dir: ps[i].dir.clone() };
        assert(p@ == all[i as int]);
        add_to_dir(&mut groups, p, Ghost(all.take(i as int)));
        i += 1;
        assert(all.take(i as int) =~= all.take(i - 1).push(all[i - 1]));
    }
    assert(all.take(all.len() as int) =~= all);
    groups
}

/// Whether a thread does not run where it should: its CPUs could not be read,
/// or are others.
pub fn is_misplaced(current: Option<CpuSet>, wanted: &CpuSet) -> (r: bool)
    ensures
        r == !(current matches Some(c) && c@ == wanted@),
{
    match current {
        Some(c) => !c.same_as(wanted),
        None => true,
    }
}

/// The placements whose threads run elsewhere: on the CPUs of `current`, where
/// those could be read.
pub open spec fn misplaced(ps: Seq<PlacementView>, current: Seq<Option<CpuSet>>) -> Seq<
    PlacementView,
>
    decreases ps.len(),
{
    if ps.len() == 0 {
        seq![]
    } else {
        let rest = misplaced(ps.drop_last(), current);
        if current[ps.len() - 1] matches Some(c) && c@ == ps.last().cpus {
            rest
        } else {
            rest.push(ps.last())
        }
    }
}

/// The placements of a group whose CPUs are to be set: those whose threads do
/// not run there already. `current` says for each where it runs.
pub fn to_set(items: &Vec<Placement>, current: &Vec<Option<CpuSet>>) -> (r: Vec<Placement>)
    requires
        items@.len() == current@.len(),
    ensures
        placement_views(r@) == misplaced(placement_views(items@), current@),
{
    let ghost all = placement_views(items@);
    let mut r: Vec<Placement> = Vec::new();
    let mut i: usize = 0;
    assert(placement_views(r@) =~= misplaced(all.take(0), current@));
    while i < items.len()
        invariant
            i <= items.len(),
            items@.len() == current@.len(),
            all == placement_views(items@),
            placement_views(r@) == misplaced(all.take(i as int), current@),
        decreases items.len() - i,
    {
        let p = &items[i];
        assert(all[i as int] == p@);
        assert(all.take(i + 1).drop_last() =~= all.take(i as int));
        if is_misplaced(current[i], &p.cpus) {
            let ghost before = r@;
            let q = Placement { tid: p.tid, cpus: p.cpus, dir: p.dir.clone() };
            r.push(q);
            assert(placement_views(r@) =~= placement_views(before).push(q@));
        }
        i += 1;
    }
    assert(all.take(i as int) =~= all);
    r
}

/// The threads that are moved through the `tasks` file of their directory:
/// where cpusets are in use, those whose CPUs were set and that still run
/// elsewhere.
pub open spec fn tids_to_write(
    set: Seq<PlacementView>,
    current: Seq<Option<CpuSet>>,
    cpuset_enabled: bool,
) -> Seq<i32> {
    if cpuset_enabled {
        misplaced(set, current).map_values(|p: PlacementView| p.tid)
    } else {
        seq![]
    }
}

/// The threads that are moved through the `tasks` file, by where those whose
/// CPUs were set run now.
pub fn to_write(set: &Vec<Placement>, current: &Vec<Option<CpuSet>>, cpuset_enabled: bool) -> (r:
    Vec<i32>)
    requires
        set@.len() == current@.len(),
    ensures
        r@ == tids_to_write(placement_views(set@), current@, cpuset_enabled),
{
    let mut r: Vec<i32> = Vec::new();
    if !cpuset_enabled {
        return r;
    }
    let left = to_set(set, current);
    let ghost all = placement_views(left@);
    let ghost tids = all.map_values(|p: PlacementView| p.tid);
    let mut i: usize = 0;
    assert(r@ =~= tids.take(0));
    while i < left.len()
        invariant
            i <= left.len(),
            all == placement_views(left@),
            tids == all.map_values(|p: PlacementView| p.tid),
            r@ == tids.take(i as int),
        decreases left.len() - i,
    {
        assert(all[i as int] == left@[i as int]@);
        r.push(left[i].tid);
        assert(r@ =~= tids.take(i + 1));
        i += 1;
    }
    assert(tids.take(i as int) =~= tids);
    r
}

/// A thread that runs where it should is left alone.
pub proof fn placed_threads_are_left_alone(
    ps: Seq<PlacementView>,
    current: Seq<Option<CpuSet>>,
    p: PlacementView,
)
    requires
        ps.len() == current.len(),
        misplaced(ps, current).contains(p),
    ensures
        exists|i: int|
            0 <= i < ps.len() && #[trigger] ps[i] == p && !(current[i] matches Some(c) && c@
                == p.cpus),
    decreases ps.len(),
{
    if ps.len() > 0 {
        let n = ps.len() - 1;
        let init = ps.drop_last();
        let rest = misplaced(init, current);
        lemma_misplaced_prefix(init, current, current.drop_last());
        if rest.contains(p) {
            placed_threads_are_left_alone(init, current.drop_last(), p);
            let i = choose|i: int|
                0 <= i < init.len() && #[trigger] init[i] == p && !(current.drop_last()[i] matches Some(
                    c,
                ) && c@ == p.cpus);
            assert(ps[i] == p);
        } else {
            let k = misplaced(ps, current).index_of(p);
            assert(misplaced(ps, current)[k] == p);
            if k < rest.len() {
                assert(rest[k] == p);
            }
            assert(ps[n] == p);
        }
    }
}

proof fn lemma_misplaced_prefix(
    ps: Seq<PlacementView>,
    a: Seq<Option<CpuSet>>,
    b: Seq<Option<CpuSet>>,
)
    requires
        ps.len() <= a.len(),
        ps.len() <= b.len(),
        forall|i: int| 0 <= i < ps.len() ==> a[i] == b[i],
    ensures
        misplaced(ps, a) == misplaced(ps, b),
    decreases ps.len(),
{
    if ps.len() > 0 {
        lemma_misplaced_prefix(ps.drop_last(), a, b);
    }
}

/// The file that moves threads into a cpuset directory.
pub fn tasks_path(root: &CpusetRoot, dir: &str) -> (r: String)
    ensures
        r@ == cpuset::dir_path(*root, dir@) + "/tasks"@,
{
    let mut p = cpuset::cpuset_dir_path(root, dir);
    p.append("/tasks");
    p
}

/// The number between 0 and 1024 that is nearest to `v`.
pub open spec fn in_clamp_range(v: int) -> int {
    if v < 0 {
        0
    } else if v > 1024 {
        1024
    } else {
        v
    }
}

/// The clamps that the kernel is given; nothing where neither is set. A lower
/// clamp that is not set counts as 0, an upper one as 1024.
pub open spec fn kernel_clamps(util_min: int, util_max: int) -> Option<(int, int)> {
    if util_min < 0 && util_max < 0 {
        None
    } else {
        Some(
            (
                in_clamp_range(util_min),
                if util_max < 0 {
                    1024
                } else {
                    in_clamp_range(util_max)
                },
            ),
        )
    }
}

/// Clamps that are set are given as they are, as far as they are in their range;
/// one that is not set clamps nothing.
pub proof fn clamps_are_given_as_set(lo: int, hi: int)
    ensures
        0 <= lo <= 1024 && 0 <= hi <= 1024 ==> kernel_clamps(lo, hi) == Some((lo, hi)),
        0 <= lo <= 1024 ==> kernel_clamps(lo, -1) == Some((lo, 1024int)),
        0 <= hi <= 1024 ==> kernel_clamps(-1, hi) == Some((0int, hi)),
        lo > 1024 ==> kernel_clamps(lo, lo) == Some((1024int, 1024int)),
        kernel_clamps(-1, -1) is None,
{
}

/// The clamps that the kernel is given; nothing where neither is set.
pub fn uclamp_values(util_min: i32, util_max: i32) -> (r: Option<(u32, u32)>)
    ensures
        match r {
            Some((lo, hi)) => kernel_clamps(util_min as int, util_max as int) == Some(
                (lo as int, hi as int),
            ),
            None => kernel_clamps(util_min as int, util_max as int) is None,
        },
{
    if util_min < 0 && util_max < 0 {
        return None;
    }
    let lo: u32 = if util_min < 0 {
        0
    } else if util_min > 1024 {
        1024
    } else {
        util_min as u32
    };
    let hi: u32 = if util_max < 0 {
        1024
    } else if util_max > 1024 {
        1024
    } else {
        util_max as u32
    };
    Some((lo, hi))
}

/// Where no rule of a package is for threads, the name of a thread makes no
/// difference.
pub(crate) proof fn lemma_names_count_for_thread_rules(
    cfg: AppConfig,
    hits: Seq<bool>,
    pkg: Seq<char>,
    comm: Seq<char>,
)
    requires
        cfg.wf(),
    ensures
        rule_match::affinity_of(cfg, hits, pkg, cache::name_for(cfg, pkg, comm))
            == rule_match::affinity_of(cfg, hits, pkg, comm),
{
    let name = cache::name_for(cfg, pkg, comm);
    if name != comm {
        crate::config::packages_are_those_of_the_rules(cfg, pkg);
        let rules = cfg.rules@;
        let n = rules.len() as int;
        assert forall|i: int| 0 <= i < n implies !#[trigger] rule_match::thread_rule_hits(
            rules,
            hits,
            pkg,
            comm,
            i,
        ) by {
            assert(rules[i].pkg@ == pkg || rules[i].pkg@ != pkg);
        }
        assert(!rule_match::any_thread_rule(rules, hits, pkg, comm));
        assert(!rule_match::any_thread_rule(rules, hits, pkg, name)) by {
            assert forall|i: int| 0 <= i < n implies !#[trigger] rule_match::thread_rule_hits(
                rules,
                hits,
                pkg,
                name,
                i,
            ) by {}
        }
        let a = |i: int| rule_match::counts(rules, hits, pkg, name, i);
        let b = |i: int| rule_match::counts(rules, hits, pkg, comm, i);
        assert(a =~= b);
    }
}

/// Every thread is placed on just the CPUs that the rules give it, in the
/// directory that they give it, and has just the clamps that they give it; a
/// thread that they give nothing is left alone.
#[verifier::rlimit(50)]
pub proof fn threads_get_what_the_rules_give(
    cfg: AppConfig,
    pkg: Seq<char>,
    ts: Seq<ThreadInfo>,
    i: int,
)
    requires
        cfg.wf(),
        0 <= i < ts.len(),
        forall|k: int| 0 <= k < ts.len() && k != i ==> (#[trigger] ts[k]).tid != ts[i].tid,
    ensures
        ({
            let rs = ruled_threads(cfg, pkg, ts);
            let tid = ts[i].tid;
            match rule_match::affinity_of(cfg, ts[i].hits@, pkg, ts[i].comm@) {
                Some(a) => {
                    &&& (exists|c: int| a.cpus.contains(c)) ==> placements_of(rs).contains(
                        PlacementView { tid, cpus: a.cpus, dir: a.cpuset_dir },
                    )
                    &&& a.util_min >= 0 || a.util_max >= 0 ==> clamps_of(rs).contains(
                        (tid, a.util_min, a.util_max),
                    )
                    &&& forall|k: int|
                        0 <= k < placements_of(rs).len() && (#[trigger] placements_of(rs)[k]).tid
                            == tid ==> placements_of(rs)[k].cpus == a.cpus
                    &&& forall|k: int|
                        0 <= k < clamps_of(rs).len() && (#[trigger] clamps_of(rs)[k]).0 == tid
                            ==> clamps_of(rs)[k] == (tid, a.util_min, a.util_max)
                },
                None => {
                    &&& forall|k: int|
                        0 <= k < placements_of(rs).len() ==> (#[trigger] placements_of(rs)[k]).tid
                            != tid
                    &&& forall|k: int|
                        0 <= k < clamps_of(rs).len() ==> (#[trigger] clamps_of(rs)[k]).0 != tid
                },
            }
        }),
{
    lemma_names_count_for_thread_rules(cfg, ts[i].hits@, pkg, ts[i].comm@);
    lemma_ruled(cfg, pkg, ts, i);
    let rs = ruled_threads(cfg, pkg, ts);
    lemma_placed(rs);
    if let Some(a) = result_for(cfg, pkg, ts[i]) {
        if exists|c: int| a.cpus.contains(c) {
            assert(a.cpus != Set::<int>::empty());
        }
    }
}

/// The thread is listed with what it gets, and with nothing else.
proof fn lemma_ruled(cfg: AppConfig, pkg: Seq<char>, ts: Seq<ThreadInfo>, i: int)
    requires
        0 <= i < ts.len(),
        forall|k: int| 0 <= k < ts.len() && k != i ==> (#[trigger] ts[k]).tid != ts[i].tid,
    ensures
        match result_for(cfg, pkg, ts[i]) {
            Some(a) => {
                &&& ruled_threads(cfg, pkg, ts).contains((ts[i].tid, a))
                &&& forall|k: int|
                    0 <= k < ruled_threads(cfg, pkg, ts).len() && (#[trigger] ruled_threads(
                        cfg,
                        pkg,
                        ts,
                    )[k]).0 == ts[i].tid ==> ruled_threads(cfg, pkg, ts)[k].1 == a
            },
            None => forall|k: int|
                0 <= k < ruled_threads(cfg, pkg, ts).len() ==> (#[trigger] ruled_threads(
                    cfg,
                    pkg,
                    ts,
                )[k]).0 != ts[i].tid,
        },
    decreases ts.len(),
{
    let init = ts.drop_last();
    let last = ts.len() - 1;
    let rest = ruled_threads(cfg, pkg, init);
    let all = ruled_threads(cfg, pkg, ts);
    if i < last {
        assert(init[i] == ts[i]);
        assert forall|k: int| 0 <= k < init.len() && k != i implies (#[trigger] init[k]).tid
            != init[i].tid by {
            assert(init[k] == ts[k]);
        }
        lemma_ruled(cfg, pkg, init, i);
        assert(ts[last].tid != ts[i].tid);
        if let Some(a) = result_for(cfg, pkg, ts[i]) {
            let k = rest.index_of((ts[i].tid, a));
            assert(rest[k] == (ts[i].tid, a));
            assert(all[k] == rest[k]);
        }
        assert forall|k: int| 0 <= k < all.len() && (#[trigger] all[k]).0 == ts[i].tid implies k
            < rest.len() && all[k] == rest[k] by {}
    } else {
        lemma_not_ruled(cfg, pkg, init, ts[i].tid);
        if let Some(a) = result_for(cfg, pkg, ts[i]) {
            assert(all[rest.len() as int] == (ts[i].tid, a));
        }
    }
}

proof fn lemma_not_ruled(cfg: AppConfig, pkg: Seq<char>, ts: Seq<ThreadInfo>, tid: i32)
    requires
        forall|k: int| 0 <= k < ts.len() ==> (#[trigger] ts[k]).tid != tid,
    ensures
        forall|k: int|
            0 <= k < ruled_threads(cfg, pkg, ts).len() ==> (#[trigger] ruled_threads(
                cfg,
                pkg,
                ts,
            )[k]).0 != tid,
    decreases ts.len(),
{
    if ts.len() > 0 {
        let init = ts.drop_last();
        assert forall|k: int| 0 <= k < init.len() implies (#[trigger] init[k]).tid != tid by {
            assert(init[k] == ts[k]);
        }
        lemma_not_ruled(cfg, pkg, init, tid);
        assert(ts[ts.len() - 1].tid != tid);
        let rest = ruled_threads(cfg, pkg, init);
        let all = ruled_threads(cfg, pkg, ts);
        assert forall|k: int| 0 <= k < all.len() implies (#[trigger] all[k]).0 != tid by {
            if k < rest.len() {
                assert(all[k] == rest[k]);
            }
        }
    }
}

/// What stands in the lists for a thread comes from what it gets.
#[verifier::rlimit(50)]
proof fn lemma_placed(rs: Seq<(i32, rule_match::ResultView)>)
    ensures
        forall|j: int|
            0 <= j < rs.len() && (#[trigger] rs[j]).1.cpus != Set::<int>::empty()
                ==> placements_of(rs).contains(
                PlacementView { tid: rs[j].0, cpus: rs[j].1.cpus, dir: rs[j].1.cpuset_dir },
            ),
        forall|j: int|
            0 <= j < rs.len() && ((#[trigger] rs[j]).1.util_min >= 0 || rs[j].1.util_max >= 0)
                ==> clamps_of(rs).contains((rs[j].0, rs[j].1.util_min, rs[j].1.util_max)),
        forall|k: int|
            0 <= k < placements_of(rs).len() ==> exists|j: int|
                0 <= j < rs.len() && (#[trigger] rs[j]).0 == (#[trigger] placements_of(rs)[k]).tid
                    && rs[j].1.cpus == placements_of(rs)[k].cpus,
        forall|k: int|
            0 <= k < clamps_of(rs).len() ==> exists|j: int|
                0 <= j < rs.len() && (#[trigger] rs[j]).0 == (#[trigger] clamps_of(rs)[k]).0
                    && clamps_of(rs)[k] == (rs[j].0, rs[j].1.util_min, rs[j].1.util_max),
    decreases rs.len(),
{
    if rs.len() > 0 {
        let init = rs.drop_last();
        let last = rs.len() - 1;
        lemma_placed(init);
        let p0 = placements_of(init);
        let p = placements_of(rs);
        let c0 = clamps_of(init);
        let c = clamps_of(rs);
        assert forall|j: int|
            0 <= j < rs.len() && (#[trigger] rs[j]).1.cpus != Set::<int>::empty() implies p.contains(
            PlacementView { tid: rs[j].0, cpus: rs[j].1.cpus, dir: rs[j].1.cpuset_dir },
        ) by {
            let v = PlacementView { tid: rs[j].0, cpus: rs[j].1.cpus, dir: rs[j].1.cpuset_dir };
            if j < last {
                assert(init[j] == rs[j]);
                let k = p0.index_of(v);
                assert(p0[k] == v);
                assert(p[k] == v);
            } else {
                assert(p[p0.len() as int] == v);
            }
        }
        assert forall|j: int|
            0 <= j < rs.len() && ((#[trigger] rs[j]).1.util_min >= 0 || rs[j].1.util_max
                >= 0) implies c.contains((rs[j].0, rs[j].1.util_min, rs[j].1.util_max)) by {
            let v = (rs[j].0, rs[j].1.util_min, rs[j].1.util_max);
            if j < last {
                assert(init[j] == rs[j]);
                let k = c0.index_of(v);
                assert(c0[k] == v);
                assert(c[k] == v);
            } else {
                assert(c[c0.len() as int] == v);
            }
        }
        assert forall|k: int| 0 <= k < p.len() implies exists|j: int|
            0 <= j < rs.len() && (#[trigger] rs[j]).0 == (#[trigger] p[k]).tid && rs[j].1.cpus
                == p[k].cpus by {
            if k < p0.len() {
                assert(p[k] == p0[k]);
                let j = choose|j: int|
                    0 <= j < init.len() && (#[trigger] init[j]).0 == p0[k].tid && init[j].1.cpus
                        == p0[k].cpus;
                assert(rs[j] == init[j]);
            } else {
                assert(rs[last].0 == p[k].tid);
            }
        }
        assert forall|k: int| 0 <= k < c.len() implies exists|j: int|
            0 <= j < rs.len() && (#[trigger] rs[j]).0 == (#[trigger] c[k]).0 && c[k] == (
                rs[j].0,
                rs[j].1.util_min,
                rs[j].1.util_max,
            ) by {
            if k < c0.len() {
                assert(c[k] == c0[k]);
                let j = choose|j: int|
                    0 <= j < init.len() && (#[trigger] init[j]).0 == c0[k].0 && c0[k] == (
                        init[j].0,
                        init[j].1.util_min,
                        init[j].1.util_max,
                    );
                assert(rs[j] == init[j]);
            } else {
                assert(rs[last].0 == c[k].0);
            }
        }
    }
}

/// Every thread that gets CPUs stands in the group of the word of these CPUs, and
/// no thread stands in the group of another word.
pub proof fn threads_stand_in_their_groups(
    groups: Seq<(u64, Vec<i32>)>,
    rs: Seq<(i32, rule_match::ResultView)>,
    k: int,
)
    requires
        groups_words(groups, rs),
        0 <= k < rs.len(),
        exists|c: int| rs[k].1.cpus.contains(c),
    ensures
        exists|i: int|
            0 <= i < groups.len() && (#[trigger] groups[i]).0 == cpuset::low_word(rs[k].1.cpus)
                && groups[i].1@.contains(rs[k].0),
        forall|i: int, t: i32|
            0 <= i < groups.len() && (#[trigger] groups[i].1@.contains(t)) ==> exists|j: int|
                0 <= j < rs.len() && (#[trigger] rs[j]).0 == t && cpuset::low_word(rs[j].1.cpus)
                    == groups[i].0,
{
    let w = cpuset::low_word(rs[k].1.cpus);
    assert(rs[k].1.cpus != Set::<int>::empty());
    assert(has_group(groups, w));
    let i = choose|i: int| 0 <= i < groups.len() && (#[trigger] groups[i]).0 == w;
    lemma_with_word(rs, w);
    assert(groups[i].1@ == with_word(rs, w));
    assert forall|g: int, t: i32|
        0 <= g < groups.len() && (#[trigger] groups[g].1@.contains(t)) implies exists|j: int|
        0 <= j < rs.len() && (#[trigger] rs[j]).0 == t && cpuset::low_word(rs[j].1.cpus)
            == groups[g].0 by {
        lemma_with_word(rs, groups[g].0);
        assert(groups[g].1@ == with_word(rs, groups[g].0));
        let x = groups[g].1@.index_of(t);
        assert(with_word(rs, groups[g].0)[x] == t);
    }
}

proof fn lemma_with_word(rs: Seq<(i32, rule_match::ResultView)>, w: u64)
    ensures
        forall|j: int|
            0 <= j < rs.len() && (#[trigger] rs[j]).1.cpus != Set::<int>::empty()
                && cpuset::low_word(rs[j].1.cpus) == w ==> with_word(rs, w).contains(rs[j].0),
        forall|x: int|
            0 <= x < with_word(rs, w).len() ==> exists|j: int|
                0 <= j < rs.len() && (#[trigger] rs[j]).0 == #[trigger] with_word(rs, w)[x]
                    && cpuset::low_word(rs[j].1.cpus) == w,
    decreases rs.len(),
{
    if rs.len() > 0 {
        let init = rs.drop_last();
        let last = rs.len() - 1;
        lemma_with_word(init, w);
        let a = with_word(init, w);
        let b = with_word(rs, w);
        assert forall|j: int|
            0 <= j < rs.len() && (#[trigger] rs[j]).1.cpus != Set::<int>::empty()
                && cpuset::low_word(rs[j].1.cpus) == w implies b.contains(rs[j].0) by {
            if j < last {
                assert(init[j] == rs[j]);
                let x = a.index_of(rs[j].0);
                assert(a[x] == rs[j].0);
                assert(b[x] == rs[j].0);
            } else {
                assert(b[a.len() as int] == rs[j].0);
            }
        }
        assert forall|x: int| 0 <= x < b.len() implies exists|j: int|
            0 <= j < rs.len() && (#[trigger] rs[j]).0 == #[trigger] b[x] && cpuset::low_word(
                rs[j].1.cpus,
            ) == w by {
            if x < a.len() {
                assert(b[x] == a[x]);
                let j = choose|j: int|
                    0 <= j < init.len() && (#[trigger] init[j]).0 == a[x] && cpuset::low_word(
                        init[j].1.cpus,
                    ) == w;
                assert(rs[j] == init[j]);
            } else {
                assert(rs[last].0 == b[x]);
            }
        }
    }
}

/// No thread is lost and none is placed twice: every thread that the rules give
/// CPUs stands in just one directory group.
pub proof fn every_placement_has_its_group(groups: Seq<DirGroup>, ps: Seq<PlacementView>, k: int)
    requires
        groups_dirs(groups, ps),
        0 <= k < ps.len(),
    ensures
        exists|i: int|
            0 <= i < groups.len() && placement_views((#[trigger] groups[i]).items@).contains(ps[k]),
        forall|i: int, j: int|
            0 <= i < groups.len() && 0 <= j < groups.len() && placement_views(
                (#[trigger] groups[i]).items@,
            ).contains(ps[k]) && placement_views((#[trigger] groups[j]).items@).contains(ps[k])
                ==> i == j,
{
    assert(has_dir(groups, ps[k].dir));
    let i = choose|i: int| 0 <= i < groups.len() && (#[trigger] groups[i]).dir@ == ps[k].dir;
    lemma_in_dir_holds(ps, ps[k].dir, ps[k]);
    assert(ps.contains(ps[k]));
    assert(placement_views(groups[i].items@).contains(ps[k]));
    assert forall|a: int, b: int|
        0 <= a < groups.len() && 0 <= b < groups.len() && placement_views(
            (#[trigger] groups[a]).items@,
        ).contains(ps[k]) && placement_views(
            (#[trigger] groups[b]).items@,
        ).contains(ps[k]) implies a == b by {
        lemma_in_dir_holds(ps, groups[a].dir@, ps[k]);
        lemma_in_dir_holds(ps, groups[b].dir@, ps[k]);
        assert(groups[a].dir@ == groups[b].dir@);
        if a < b {
            assert(groups[a].dir@ != groups[b].dir@);
        } else if b < a {
            assert(groups[b].dir@ != groups[a].dir@);
        }
    }
}

proof fn lemma_in_dir_holds(ps: Seq<PlacementView>, dir: Seq<char>, p: PlacementView)
    ensures
        in_dir(ps, dir).contains(p) <==> (ps.contains(p) && p.dir == dir),
    decreases ps.len(),
{
    if ps.len() == 0 {
        reveal(Seq::filter);
    } else {
        let init = ps.drop_last();
        lemma_in_dir_holds(init, dir, p);
        assert(init.push(ps.last()) =~= ps);
        lemma_in_dir_push(init, ps.last(), dir);
        let a = in_dir(init, dir);
        let b = in_dir(ps, dir);
        if ps.contains(p) {
            let k = ps.index_of(p);
            if k < init.len() {
                assert(init[k] == p);
            }
        }
        if init.contains(p) {
            let k = init.index_of(p);
            assert(ps[k] == p);
        }
        if a.contains(p) {
            let k = a.index_of(p);
            assert(b[k] == p);
        }
        if b.contains(p) {
            let k = b.index_of(p);
            if k < a.len() {
                assert(a[k] == p);
            } else {
                assert(ps[ps.len() - 1] == p);
            }
        }
        if p == ps.last() && p.dir == dir {
            assert(b[a.len() as int] == p);
        }
        assert(ps[ps.len() - 1] == ps.last());
    }
}

} // verus!
