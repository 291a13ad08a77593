//! The worker that places the threads of applications: which applications it
//! knows, what is still to be done for them, and which threads get what.
use std::collections::HashMap;

use vstd::prelude::*;

use crate::config;
use crate::cpuset::CpuSet;
use crate::names::NameMap;
use crate::number;
use crate::order;
use crate::proc_mode::ThreadInfo;
use crate::text;

verus! {

broadcast use {vstd::string::group_string_axioms, vstd::std_specs::hash::group_hash_axioms};

/// How long the worker sleeps when nothing is due, in milliseconds.
pub const IDLE_MS: u64 = 3600000;

/// A message to the worker.
pub enum CpuMsg {
    /// An application came to the foreground cold: main process, user number
    /// and package.
    ApplyPkg(i32, i32, String),
    /// The main process of an application is gone.
    EvictUid(i32),
    /// Place the threads of all applications with rules; with their user numbers.
    ApplyAll(Vec<(String, i32)>),
    /// Bring the statistics up to date.
    PublishStats,
    /// The rules of a package have changed.
    ApplyPkgByUid(i32, String),
    /// The rule for one thread name of a package has changed.
    ApplyThreadByUid(i32, String, String),
}

/// The applications that are known to run: by user number, the main process
/// and all processes. No processes are listed before the first placement.
pub struct CpuKnown {
    pub map: HashMap<i32, (i32, Vec<i32>)>,
}

/// Application `uid` is known with main process `pid`.
pub open spec fn known_as(known: CpuKnown, uid: i32, pid: i32) -> bool {
    known.map@.contains_key(uid) && known.map@[uid].0 == pid
}

/// Whether an application that comes to the foreground is hot: known with the
/// same main process.
pub fn cpu_known_is_hot(known: &CpuKnown, uid: i32, pid: i32) -> (r: bool)
    ensures
        r == known_as(*known, uid, pid),
{
    match known.map.get(&uid) {
        Some(e) => e.0 == pid,
        None => false,
    }
}

/// The application whose main process is `pid`.
pub fn cpu_known_pid_to_uid(known: &CpuKnown, pid: i32) -> (r: Option<i32>)
    ensures
        match r {
            Some(uid) => pid > 0 && known_as(*known, uid, pid),
            None => pid <= 0 || forall|uid: i32| !#[trigger] known_as(*known, uid, pid),
        },
{
    if pid <= 0 {
        return None;
    }
    let ghost all = vstd::std_specs::iter::IteratorSpec::remaining(
        &vstd::std_specs::hash::spec_keys_iter(&known.map),
    ).unref();
    let mut found: Option<i32> = None;
    for k in it: known.map.keys()
        invariant
            it.seq().unref() == all,
            it.seq().len() == all.len(),
            all.to_set() == known.map@.dom(),
            found matches Some(u) ==> known_as(*known, u, pid),
            found is None ==> forall|j: int|
                0 <= j < it.index() ==> !known_as(*known, #[trigger] all[j], pid),
    {
        assert(all[it.index() as int] == *k);
        if found.is_none() && cpu_known_is_hot(known, *k, pid) {
            found = Some(*k);
        }
    }
    proof {
        if found is None {
            assert forall|uid: i32| !#[trigger] known_as(*known, uid, pid) by {
                if known_as(*known, uid, pid) {
                    assert(all.to_set().contains(uid));
                    let j = all.index_of(uid);
                    assert(all[j] == uid);
                }
            }
        }
    }
    found
}

/// Forgets an application.
pub fn cpu_known_evict(known: &mut CpuKnown, uid: i32)
    ensures
        final(known).map@ == old(known).map@.remove(uid),
{
    let ghost m = known.map@;
    let _ = known.map.remove(&uid);
    assert(known.map@ =~= m.remove(uid));
}

/// Forgets the application whose main process is `pid`, and tells which it was.
pub fn cpu_known_evict_by_pid(known: &mut CpuKnown, pid: i32) -> (r: Option<i32>)
    ensures
        match r {
            Some(uid) => pid > 0 && known_as(*old(known), uid, pid) && final(known).map@ == old(
                known,
            ).map@.remove(uid),
            None => (pid <= 0 || forall|uid: i32| !#[trigger] known_as(*old(known), uid, pid))
                && *final(known) == *old(known),
        },
{
    match cpu_known_pid_to_uid(known, pid) {
        Some(uid) => {
            cpu_known_evict(known, uid);
            Some(uid)
        },
        None => None,
    }
}

/// A placement that waits for its time, in milliseconds.
pub struct PendingTask {
    pub due: u64,
    pub pid: i32,
    pub uid: i32,
    pub pkg: String,
}

/// The contents of a [`PendingTask`].
#[verifier::ext_equal]
pub ghost struct PendingView {
    pub due: int,
    pub pid: i32,
    pub uid: i32,
    pub pkg: Seq<char>,
}

impl View for PendingTask {
    type V = PendingView;

    open spec fn view(&self) -> PendingView {
        PendingView { due: self.due as int, pid: self.pid, uid: self.uid, pkg: self.pkg@ }
    }
}

/// The contents of the placements that wait.
pub open spec fn pending_views(ps: Seq<PendingTask>) -> Seq<PendingView> {
    ps.map_values(|p: PendingTask| p@)
}

/// No application waits twice.
pub open spec fn is_merged(ps: Seq<PendingView>) -> bool {
    forall|i: int, j: int| 0 <= i < j < ps.len() ==> (#[trigger] ps[i]).uid != (#[trigger] ps[j]).uid
}

/// The first placement for an application; their number where there is none.
pub open spec fn pending_of(ps: Seq<PendingView>, uid: i32) -> int
    decreases ps.len(),
{
    if ps.len() == 0 || ps[0].uid == uid {
        0
    } else {
        1 + pending_of(ps.skip(1), uid)
    }
}

/// The placements with one more; it takes the place of one for the same
/// application.
pub open spec fn merged(ps: Seq<PendingView>, t: PendingView) -> Seq<PendingView> {
    let k = pending_of(ps, t.uid);
    if k < ps.len() {
        ps.update(k, t)
    } else {
        ps.push(t)
    }
}

/// The placements that are due, or those that are not, in their order.
pub open spec fn split_due(ps: Seq<PendingView>, now: int, due: bool) -> Seq<PendingView> {
    ps.filter(|p: PendingView| (p.due <= now) == due)
}

/// How long until the first placement is due.
pub open spec fn wait_for(ps: Seq<PendingView>, now: int) -> int
    decreases ps.len(),
{
    if ps.len() == 0 {
        IDLE_MS as int
    } else {
        let last = if ps.last().due > now {
            ps.last().due - now
        } else {
            0
        };
        let rest = wait_for(ps.drop_last(), now);
        if ps.len() == 1 || last < rest {
            last
        } else {
            rest
        }
    }
}

proof fn lemma_pending_of(ps: Seq<PendingView>, uid: i32, k: int)
    requires
        0 <= k <= ps.len(),
        k < ps.len() ==> ps[k].uid == uid,
        forall|j: int| 0 <= j < k ==> (#[trigger] ps[j]).uid != uid,
    ensures
        pending_of(ps, uid) == k,
    decreases k,
{
    if k > 0 {
        assert(ps[0].uid != uid);
        let t = ps.skip(1);
        assert forall|j: int| 0 <= j < k - 1 implies (#[trigger] t[j]).uid != uid by {
            assert(t[j] == ps[j + 1]);
        }
        if k < ps.len() {
            assert(t[k - 1] == ps[k]);
        }
        lemma_pending_of(t, uid, k - 1);
    }
}

/// The worker's own books.
pub struct CpuAffinity {
    /// The threads that have been placed, by package.
    pub managed: NameMap<Vec<i32>>,
    /// The packages that have been placed, by user number.
    pub uid_pkg: HashMap<i32, String>,
    /// The cpuset directories that sets of CPUs have.
    pub cpuset_cache: Vec<(CpuSet, String)>,
    pub pending: Vec<PendingTask>,
}

/// The threads that have been placed, by package.
pub open spec fn managed_view(m: Map<Seq<char>, Vec<i32>>) -> Map<Seq<char>, Set<i32>> {
    Map::new(|k: Seq<char>| m.contains_key(k), |k: Seq<char>| m[k]@.to_set())
}

/// The cpuset directories by their sets of CPUs.
pub open spec fn dirs_by_set(cache: Seq<(CpuSet, String)>) -> Map<Set<int>, Seq<char>>
    decreases cache.len(),
{
    if cache.len() == 0 {
        Map::empty()
    } else {
        dirs_by_set(cache.drop_last()).insert(cache.last().0@, cache.last().1@)
    }
}

/// Every set of CPUs has one directory.
pub open spec fn sets_occur_once(cache: Seq<(CpuSet, String)>) -> bool {
    forall|i: int, j: int|
        0 <= i < j < cache.len() ==> (#[trigger] cache[i]).0@ != (#[trigger] cache[j]).0@
}

pub(crate) proof fn lemma_has_dir(cache: Seq<(CpuSet, String)>, i: int)
    requires
        sets_occur_once(cache),
        0 <= i < cache.len(),
    ensures
        dirs_by_set(cache).contains_key(cache[i].0@),
        dirs_by_set(cache)[cache[i].0@] == cache[i].1@,
    decreases cache.len(),
{
    let init = cache.drop_last();
    if i < init.len() {
        assert(init[i] == cache[i]);
        assert forall|a: int, b: int| 0 <= a < b < init.len() implies (#[trigger] init[a]).0@ != (
        #[trigger] init[b]).0@ by {
            assert(cache[a].0@ != cache[b].0@);
        }
        lemma_has_dir(init, i);
        assert(cache[i].0@ != cache[cache.len() - 1].0@);
    }
}

pub(crate) proof fn lemma_has_no_dir(cache: Seq<(CpuSet, String)>, s: Set<int>)
    requires
        forall|i: int| 0 <= i < cache.len() ==> (#[trigger] cache[i]).0@ != s,
    ensures
        !dirs_by_set(cache).contains_key(s),
    decreases cache.len(),
{
    if cache.len() > 0 {
        let init = cache.drop_last();
        assert forall|i: int| 0 <= i < init.len() implies (#[trigger] init[i]).0@ != s by {
            assert(cache[i].0@ != s);
        }
        lemma_has_no_dir(init, s);
        assert(cache[cache.len() - 1].0@ != s);
    }
}

/// Another directory in the place of the one that a set has.
pub(crate) proof fn lemma_other_dir(cache: Seq<(CpuSet, String)>, i: int, e: (CpuSet, String))
    requires
        sets_occur_once(cache),
        0 <= i < cache.len(),
        e.0@ == cache[i].0@,
    ensures
        sets_occur_once(cache.update(i, e)),
        dirs_by_set(cache.update(i, e)) == dirs_by_set(cache).insert(e.0@, e.1@),
{
    let next = cache.update(i, e);
    assert forall|a: int, b: int| 0 <= a < b < next.len() implies (#[trigger] next[a]).0@ != (
    #[trigger] next[b]).0@ by {
        assert(cache[a].0@ != cache[b].0@);
    }
    let want = dirs_by_set(cache).insert(e.0@, e.1@);
    assert forall|s: Set<int>|
        (#[trigger] dirs_by_set(next).contains_key(s) <==> want.contains_key(s)) && (
        want.contains_key(s) ==> dirs_by_set(next)[s] == want[s]) by {
        if exists|k: int| 0 <= k < cache.len() && (#[trigger] cache[k]).0@ == s {
            let k = choose|k: int| 0 <= k < cache.len() && (#[trigger] cache[k]).0@ == s;
            lemma_has_dir(cache, k);
            lemma_has_dir(next, k);
            assert(next[k].0@ == s);
            if k != i {
                if k < i {
                    assert(cache[k].0@ != cache[i].0@);
                } else {
                    assert(cache[i].0@ != cache[k].0@);
                }
            }
        } else {
            assert forall|k: int| 0 <= k < next.len() implies (#[trigger] next[k]).0@ != s by {
                assert(cache[k].0@ != s);
            }
            lemma_has_no_dir(cache, s);
            lemma_has_no_dir(next, s);
            assert(cache[i].0@ != s);
        }
    }
    assert(dirs_by_set(next) =~= want);
}

/// The number of threads that have been placed.
pub open spec fn thread_total(entries: Seq<(String, Vec<i32>)>) -> nat
    decreases entries.len(),
{
    if entries.len() == 0 {
        0
    } else {
        thread_total(entries.drop_last()) + entries.last().1@.len()
    }
}

/// What a message asks of the caller.
pub enum CpuAction {
    /// Nothing.
    Idle,
    /// Place the threads of these applications.
    ApplyAll(Vec<(String, i32)>),
    /// Place the threads of a package anew: in these processes, or in those
    /// that the application has now.
    Replay { uid: i32, pkg: String, pids: Option<Vec<i32>> },
    /// Place the threads of one name of a package anew.
    ReplayThread { uid: i32, pkg: String, thread: String, pids: Option<Vec<i32>> },
    /// Publish the statistics.
    Publish,
}

/// The processes that a replay uses: those that are listed, if any are.
pub open spec fn replay_pids(e: (i32, Vec<i32>), pids: Option<Vec<i32>>) -> bool {
    match pids {
        Some(p) => p@ == e.1@ && p@.len() > 0,
        None => e.1@.len() == 0,
    }
}

/// What a message does to the known applications and to the worker's books, and
/// what it asks of the caller.
pub open spec fn handled(
    w: CpuAffinity,
    known: CpuKnown,
    msg: CpuMsg,
    has_cfg: bool,
    due: int,
    w2: CpuAffinity,
    known2: CpuKnown,
    action: CpuAction,
) -> bool {
    let ps = pending_views(w.pending@);
    let ps2 = pending_views(w2.pending@);
    let same_books = w2.managed == w.managed && w2.uid_pkg == w.uid_pkg && w2.cpuset_cache
        == w.cpuset_cache;
    match msg {
        CpuMsg::ApplyPkg(pid, uid, pkg) => {
            &&& action is Idle
            &&& same_books
            &&& if has_cfg {
                &&& known2.map@.dom() == known.map@.dom().insert(uid)
                &&& known2.map@[uid].0 == pid && known2.map@[uid].1@.len() == 0
                &&& known2.map@.remove(uid) == known.map@.remove(uid)
                &&& ps2 == merged(ps, PendingView { due, pid, uid, pkg: pkg@ })
            } else {
                w2.pending == w.pending && known2 == known
            }
        },
        CpuMsg::ApplyAll(list) => {
            &&& same_books
            &&& known2 == known
            &&& ps2.len() == 0
            &&& if has_cfg {
                action == CpuAction::ApplyAll(list)
            } else {
                action is Idle
            }
        },
        CpuMsg::ApplyPkgByUid(uid, pkg) => {
            &&& same_books
            &&& w2.pending == w.pending
            &&& known2 == known
            &&& if has_cfg && known.map@.contains_key(uid) {
                action matches CpuAction::Replay { uid: u, pkg: p, pids } && u == uid && p@ == pkg@
                    && replay_pids(known.map@[uid], pids)
            } else {
                action is Idle
            }
        },
        CpuMsg::ApplyThreadByUid(uid, pkg, thread) => {
            &&& same_books
            &&& w2.pending == w.pending
            &&& known2 == known
            &&& if has_cfg && known.map@.contains_key(uid) {
                action matches CpuAction::ReplayThread { uid: u, pkg: p, thread: t, pids } && u
                    == uid && p@ == pkg@ && t@ == thread@ && replay_pids(known.map@[uid], pids)
            } else {
                action is Idle
            }
        },
        CpuMsg::EvictUid(uid) => {
            &&& action is Idle
            &&& evicted(w, known, uid, w2, known2)
        },
        CpuMsg::PublishStats => {
            &&& action is Publish
            &&& same_books
            &&& w2.pending == w.pending
            &&& known2 == known
        },
    }
}

/// Nothing is left of an application: it is not known, nothing waits for it, and
/// its threads are forgotten.
pub open spec fn evicted(
    w: CpuAffinity,
    known: CpuKnown,
    uid: i32,
    w2: CpuAffinity,
    known2: CpuKnown,
) -> bool {
    &&& known2.map@ == known.map@.remove(uid)
    &&& pending_views(w2.pending@) == pending_views(w.pending@).filter(
        |p: PendingView| p.uid != uid,
    )
    &&& w2.uid_pkg@ == w.uid_pkg@.remove(uid)
    &&& w2.managed@ == if w.uid_pkg@.contains_key(uid) {
        w.managed@.remove(w.uid_pkg@[uid]@)
    } else {
        w.managed@
    }
    &&& w2.cpuset_cache == w.cpuset_cache
}

proof fn lemma_filter_push<A>(s: Seq<A>, x: A, f: spec_fn(A) -> bool)
    ensures
        s.push(x).filter(f) == if f(x) {
            s.filter(f).push(x)
        } else {
            s.filter(f)
        },
{
    reveal(Seq::filter);
    assert(s.push(x).drop_last() =~= s);
}

proof fn lemma_filter_nothing<A>(s: Seq<A>, f: spec_fn(A) -> bool)
    requires
        s.len() == 0,
    ensures
        s.filter(f) == Seq::<A>::empty(),
{
    reveal(Seq::filter);
}

impl CpuAffinity {
    /// Names, thread numbers and sets of CPUs occur once, and no application
    /// waits twice.
    pub open spec fn wf(self) -> bool {
        &&& self.managed.wf()
        &&& forall|i: int|
            0 <= i < self.managed.entries@.len() ==> (
            #[trigger] self.managed.entries@[i]).1@.no_duplicates()
        &&& sets_occur_once(self.cpuset_cache@)
        &&& is_merged(pending_views(self.pending@))
    }

    /// Nothing placed yet.
    pub fn new() -> (r: CpuAffinity)
        ensures
            r.wf(),
            r.managed@ == Map::<Seq<char>, Vec<i32>>::empty(),
            r.uid_pkg@ == Map::<i32, String>::empty(),
            r.cpuset_cache@.len() == 0,
            r.pending@.len() == 0,
    {
        let managed: NameMap<Vec<i32>> = NameMap::new();
        proof {
            if managed.entries@.len() > 0 {
                managed.lemma_entry(0);
            }
        }
        CpuAffinity {
            managed,
            uid_pkg: HashMap::new(),
            cpuset_cache: Vec::new(),
            pending: Vec::new(),
        }
    }

    /// How long the worker may sleep, in milliseconds.
    pub fn next_timeout(&self, now: u64) -> (r: u64)
        ensures
            r == wait_for(pending_views(self.pending@), now as int),
    {
        let mut best: u64 = IDLE_MS;
        let mut i: usize = 0;
        let ghost all = pending_views(self.pending@);
        while i < self.pending.len()
            invariant
                i <= self.pending.len(),
                all == pending_views(self.pending@),
                best == wait_for(all.take(i as int), now as int),
            decreases self.pending.len() - i,
        {
            let d: u64 = self.pending[i].due;
            let left: u64 = if d > now {
                d - now
            } else {
                0
            };
            proof {
                let b = all.take(i + 1);
                assert(b.drop_last() =~= all.take(i as int));
                assert(b.last() == all[i as int]);
            }
            if i == 0 || left < best {
                best = left;
            }
            i += 1;
        }
        assert(all.take(all.len() as int) =~= all);
        best
    }

    /// Takes the placements out that are due.
    pub fn take_due(&mut self, now: u64) -> (r: Vec<PendingTask>)
        requires
            old(self).wf(),
        ensures
            final(self).wf(),
            pending_views(r@) == split_due(pending_views(old(self).pending@), now as int, true),
            pending_views(final(self).pending@) == split_due(
                pending_views(old(self).pending@),
                now as int,
                false,
            ),
            final(self).managed == old(self).managed,
            final(self).uid_pkg == old(self).uid_pkg,
            final(self).cpuset_cache == old(self).cpuset_cache,
    {
        let ghost all = pending_views(self.pending@);
        let mut from: Vec<PendingTask> = Vec::new();
        std::mem::swap(&mut from, &mut self.pending);
        let mut due: Vec<PendingTask> = Vec::new();
        let mut rest: Vec<PendingTask> = Vec::new();
        let ghost f = |p: PendingView| (p.due <= now) == true;
        let ghost g = |p: PendingView| (p.due <= now) == false;
        proof {
            lemma_filter_nothing(all.take(0), f);
            lemma_filter_nothing(all.take(0), g);
            assert(pending_views(due@) =~= all.take(0).filter(f));
            assert(pending_views(rest@) =~= all.take(0).filter(g));
        }
        let n: usize = from.len();
        let mut i: usize = 0;
        while i < n
            invariant
                i <= n,
                n == from.len(),
                n == all.len(),
                all == pending_views(from@),
                f == (|p: PendingView| (p.due <= now) == true),
                g == (|p: PendingView| (p.due <= now) == false),
                pending_views(due@) == all.take(i as int).filter(f),
                pending_views(rest@) == all.take(i as int).filter(g),
            decreases n - i,
        {
            let t = &from[i];
            let copy = PendingTask { due: t.due, pid: t.pid, uid: t.uid, pkg: t.pkg.clone() };
            let ghost v = all[i as int];
            assert(copy@ == v);
            proof {
                assert(all.take(i + 1) =~= all.take(i as int).push(v));
                lemma_filter_push(all.take(i as int), v, f);
                lemma_filter_push(all.take(i as int), v, g);
            }
            let ghost d0 = pending_views(due@);
            let ghost r0 = pending_views(rest@);
            if t.due <= now {
                due.push(copy);
                assert(pending_views(due@) =~= d0.push(v));
            } else {
                rest.push(copy);
                assert(pending_views(rest@) =~= r0.push(v));
            }
            i += 1;
        }
        assert(all.take(n as int) =~= all);
        proof {
            lemma_filter_merged(all, g);
            assert(split_due(all, now as int, true) == all.filter(f));
            assert(split_due(all, now as int, false) == all.filter(g));
        }
        self.pending = rest;
        due
    }
}

/// Leaving placements out keeps them merged.
proof fn lemma_filter_merged(ps: Seq<PendingView>, f: spec_fn(PendingView) -> bool)
    requires
        is_merged(ps),
    ensures
        is_merged(ps.filter(f)),
        forall|i: int|
            0 <= i < ps.filter(f).len() ==> ps.contains(#[trigger] ps.filter(f)[i]),
    decreases ps.len(),
{
    if ps.len() == 0 {
        lemma_filter_nothing(ps, f);
    } else {
        let init = ps.drop_last();
        let x = ps.last();
        assert(init.push(x) =~= ps);
        assert(is_merged(init)) by {
            assert forall|i: int, j: int| 0 <= i < j < init.len() implies (#[trigger] init[i]).uid
                != (#[trigger] init[j]).uid by {
                assert(ps[i].uid != ps[j].uid);
            }
        }
        lemma_filter_merged(init, f);
        lemma_filter_push(init, x, f);
        let a = init.filter(f);
        let b = ps.filter(f);
        assert forall|i: int| 0 <= i < b.len() implies ps.contains(#[trigger] b[i]) by {
            if i < a.len() {
                assert(b[i] == a[i]);
                assert(init.contains(a[i]));
                let k = init.index_of(a[i]);
                assert(ps[k] == a[i]);
            } else {
                assert(ps[ps.len() - 1] == x);
            }
        }
        assert forall|i: int, j: int| 0 <= i < j < b.len() implies (#[trigger] b[i]).uid != (
        #[trigger] b[j]).uid by {
            assert(b[i] == a[i]);
            if j < a.len() {
                assert(b[j] == a[j]);
            } else {
                assert(init.contains(a[i]));
                let k = init.index_of(a[i]);
                assert(ps[k].uid != ps[ps.len() - 1].uid);
            }
        }
    }
}

/// A copy of a list of process numbers.
fn copy_pids(v: &Vec<i32>) -> (r: Vec<i32>)
    ensures
        r@ == v@,
{
    let mut r: Vec<i32> = Vec::new();
    let mut i: usize = 0;
    while i < v.len()
        invariant
            i <= v.len(),
            r@ == v@.take(i as int),
        decreases v.len() - i,
    {
        r.push(v[i]);
        i += 1;
        assert(v@.take(i as int) =~= v@.take(i - 1).push(v@[i - 1]));
    }
    assert(v@.take(v@.len() as int) =~= v@);
    r
}

/// The processes for a replay: those that are listed, if any are.
fn listed_pids(e: &(i32, Vec<i32>)) -> (r: Option<Vec<i32>>)
    ensures
        replay_pids(*e, r),
{
    if e.1.len() > 0 {
        Some(copy_pids(&e.1))
    } else {
        None
    }
}

impl CpuAffinity {
    /// Forgets an application that is gone.
    fn evict_uid(&mut self, known: &mut CpuKnown, uid: i32)
        requires
            old(self).wf(),
        ensures
            final(self).wf(),
            evicted(*old(self), *old(known), uid, *final(self), *final(known)),
    {
        cpu_known_evict(known, uid);
        let ghost all = pending_views(self.pending@);
        let ghost f = |p: PendingView| p.uid != uid;
        let mut rest: Vec<PendingTask> = Vec::new();
        let mut i: usize = 0;
        proof {
            lemma_filter_nothing(all.take(0), f);
            assert(pending_views(rest@) =~= all.take(0).filter(f));
        }
        while i < self.pending.len()
            invariant
                i <= self.pending.len(),
                all == pending_views(self.pending@),
                f == (|p: PendingView| p.uid != uid),
                pending_views(rest@) == all.take(i as int).filter(f),
            decreases self.pending.len() - i,
        {
            let t = &self.pending[i];
            let ghost v = all[i as int];
            proof {
                assert(all.take(i + 1) =~= all.take(i as int).push(v));
                lemma_filter_push(all.take(i as int), v, f);
            }
            let ghost r0 = pending_views(rest@);
            if t.uid != uid {
                rest.push(
                    PendingTask { due: t.due, pid: t.pid, uid: t.uid, pkg: t.pkg.clone() },
                );
                assert(pending_views(rest@) =~= r0.push(v));
            }
            i += 1;
        }
        assert(all.take(all.len() as int) =~= all);
        proof {
            lemma_filter_merged(all, f);
        }
        self.pending = rest;
        let ghost up = self.uid_pkg@;
        let ghost entries = self.managed.entries@;
        match self.uid_pkg.remove(&uid) {
            Some(pkg) => {
                assert(self.uid_pkg@ =~= up.remove(uid));
                self.remove_managed(pkg.as_str());
            },
            None => {
                assert(self.uid_pkg@ =~= up.remove(uid));
            },
        }
    }

    /// Forgets the threads of a package.
    fn remove_managed(&mut self, pkg: &str)
        requires
            old(self).wf(),
        ensures
            final(self).wf(),
            final(self).managed@ == old(self).managed@.remove(pkg@),
            final(self).uid_pkg == old(self).uid_pkg,
            final(self).cpuset_cache == old(self).cpuset_cache,
            final(self).pending == old(self).pending,
    {
        let ghost before = self.managed;
        let _ = self.managed.remove(pkg);
        proof {
            assert forall|i: int| 0 <= i < self.managed.entries@.len() implies (
            #[trigger] self.managed.entries@[i]).1@.no_duplicates() by {
                let k = self.managed.entries@[i].0@;
                self.managed.lemma_entry(i);
                assert(before@.contains_key(k));
                let j = before.keys().index_of(k);
                assert(before.keys()[j] == k);
                before.lemma_entry(j);
                assert(before.entries@[j].1 == self.managed.entries@[i].1);
            }
        }
    }

    /// Puts a placement among those that wait.
    fn register(&mut self, t: PendingTask)
        requires
            old(self).wf(),
        ensures
            final(self).wf(),
            pending_views(final(self).pending@) == merged(pending_views(old(self).pending@), t@),
            final(self).managed == old(self).managed,
            final(self).uid_pkg == old(self).uid_pkg,
            final(self).cpuset_cache == old(self).cpuset_cache,
    {
        let ghost all = pending_views(self.pending@);
        let ghost v = t@;
        let mut i: usize = 0;
        while i < self.pending.len() && self.pending[i].uid != t.uid
            invariant
                i <= self.pending.len(),
                all == pending_views(self.pending@),
                v == t@,
                forall|j: int| 0 <= j < i ==> (#[trigger] all[j]).uid != v.uid,
            decreases self.pending.len() - i,
        {
            i += 1;
        }
        proof {
            lemma_pending_of(all, v.uid, i as int);
        }
        if i < self.pending.len() {
            self.pending.set(i, t);
            proof {
                let b = pending_views(self.pending@);
                assert(b =~= all.update(i as int, v));
                assert forall|x: int, y: int| 0 <= x < y < b.len() implies (#[trigger] b[x]).uid
                    != (#[trigger] b[y]).uid by {
                    assert(all[x].uid != all[y].uid);
                }
            }
        } else {
            self.pending.push(t);
            proof {
                let b = pending_views(self.pending@);
                assert(b =~= all.push(v));
                assert forall|x: int, y: int| 0 <= x < y < b.len() implies (#[trigger] b[x]).uid
                    != (#[trigger] b[y]).uid by {
                    if y < all.len() {
                        assert(all[x].uid != all[y].uid);
                    } else {
                        assert(all[x].uid != v.uid);
                    }
                }
            }
        }
    }

    /// Takes a message in. `has_cfg` says that there is a configuration; `now`
    /// and `delay` are in milliseconds.
    pub fn handle_msg(
        &mut self,
        known: &mut CpuKnown,
        msg: CpuMsg,
        has_cfg: bool,
        now: u64,
        delay: u64,
    ) -> (r: CpuAction)
        requires
            old(self).wf(),
            now + delay <= u64::MAX,
        ensures
            final(self).wf(),
            handled(
                *old(self),
                *old(known),
                msg,
                has_cfg,
                now + delay,
                *final(self),
                *final(known),
                r,
            ),
    {
        match msg {
            CpuMsg::ApplyPkg(pid, uid, pkg) => {
                if has_cfg {
                    let ghost m = known.map@;
                    let none: Vec<i32> = Vec::new();
                    known.map.insert(uid, (pid, none));
                    proof {
                        assert(known.map@.dom() =~= m.dom().insert(uid));
                        assert(known.map@.remove(uid) =~= m.remove(uid));
                    }
                    self.register(PendingTask { due: now + delay, pid, uid, pkg });
                }
                CpuAction::Idle
            },
            CpuMsg::ApplyAll(list) => {
                self.pending = Vec::new();
                if has_cfg {
                    CpuAction::ApplyAll(list)
                } else {
                    CpuAction::Idle
                }
            },
            CpuMsg::ApplyPkgByUid(uid, pkg) => {
                match known.map.get(&uid) {
                    Some(e) => {
                        if has_cfg {
                            CpuAction::Replay { uid, pkg, pids: listed_pids(e) }
                        } else {
                            CpuAction::Idle
                        }
                    },
                    None => CpuAction::Idle,
                }
            },
            CpuMsg::ApplyThreadByUid(uid, pkg, thread) => {
                match known.map.get(&uid) {
                    Some(e) => {
                        if has_cfg {
                            CpuAction::ReplayThread { uid, pkg, thread, pids: listed_pids(e) }
                        } else {
                            CpuAction::Idle
                        }
                    },
                    None => CpuAction::Idle,
                }
            },
            CpuMsg::EvictUid(uid) => {
                self.evict_uid(known, uid);
                CpuAction::Idle
            },
            CpuMsg::PublishStats => CpuAction::Publish,
        }
    }

    /// Ends a placement that was due. `pids` are the processes that the
    /// application has; one without processes, or without a configuration, is
    /// forgotten.
    pub fn apply_pkg(
        &mut self,
        known: &mut CpuKnown,
        pid: i32,
        uid: i32,
        pkg: &str,
        has_cfg: bool,
        pids: Vec<i32>,
    )
        requires
            old(self).wf(),
        ensures
            final(self).wf(),
            final(self).managed == old(self).managed,
            final(self).pending == old(self).pending,
            final(self).cpuset_cache == old(self).cpuset_cache,
            if has_cfg && pids@.len() > 0 {
                &&& final(known).map@ == old(known).map@.insert(uid, (pid, pids))
                &&& final(self).uid_pkg@.dom() == old(self).uid_pkg@.dom().insert(uid)
                &&& final(self).uid_pkg@[uid]@ == pkg@
                &&& final(self).uid_pkg@.remove(uid) == old(self).uid_pkg@.remove(uid)
            } else {
                &&& final(known).map@ == old(known).map@.remove(uid)
                &&& final(self).uid_pkg == old(self).uid_pkg
            },
    {
        if !has_cfg || pids.len() == 0 {
            cpu_known_evict(known, uid);
            return ;
        }
        known.map.insert(uid, (pid, pids));
        self.note_uid(uid, pkg);
    }

    /// Notes the package of an application.
    fn note_uid(&mut self, uid: i32, pkg: &str)
        requires
            old(self).wf(),
        ensures
            final(self).wf(),
            final(self).managed == old(self).managed,
            final(self).pending == old(self).pending,
            final(self).cpuset_cache == old(self).cpuset_cache,
            final(self).uid_pkg@.dom() == old(self).uid_pkg@.dom().insert(uid),
            final(self).uid_pkg@[uid]@ == pkg@,
            final(self).uid_pkg@.remove(uid) == old(self).uid_pkg@.remove(uid),
    {
        let ghost m = self.uid_pkg@;
        self.uid_pkg.insert(uid, pkg.to_owned());
        assert(self.uid_pkg@.dom() =~= m.dom().insert(uid));
        assert(self.uid_pkg@.remove(uid) =~= m.remove(uid));
    }

    /// The number of threads that have been placed, as far as a machine word
    /// holds it, and the packages that have some, in ascending order.
    pub fn publish_stats(&self) -> (r: (usize, Vec<String>))
        requires
            self.wf(),
        ensures
            r.0 == config::capped(thread_total(self.managed.entries@)),
            order::ascending(text::owned(r.1@)),
            text::owned(r.1@).to_set() == self.managed@.dom(),
    {
        let pkgs = self.managed.sorted_keys();
        let ghost all = self.managed.entries@;
        let mut n: usize = 0;
        let mut i: usize = 0;
        while i < self.managed.entries.len()
            invariant
                i <= self.managed.entries.len(),
                all == self.managed.entries@,
                n == config::capped(thread_total(all.take(i as int))),
            decreases self.managed.entries.len() - i,
        {
            let c: usize = self.managed.entries[i].1.len();
            proof {
                let b = all.take(i + 1);
                assert(b.drop_last() =~= all.take(i as int));
                assert(b.last() == all[i as int]);
            }
            if c > usize::MAX - n {
                n = usize::MAX;
            } else {
                n = n + c;
            }
            i += 1;
        }
        assert(all.take(all.len() as int) =~= all);
        (n, pkgs)
    }
}

/// The statistics of the worker: threads placed, packages with some, and their
/// names.
pub fn cpu_stats(published: &(usize, Vec<String>)) -> (r: (usize, usize, Vec<String>))
    ensures
        r.0 == published.0,
        r.1 == published.1@.len(),
        text::owned(r.2@) == text::owned(published.1@),
{
    let mut names: Vec<String> = Vec::new();
    let ghost all = text::owned(published.1@);
    let mut i: usize = 0;
    while i < published.1.len()
        invariant
            i <= published.1.len(),
            all == text::owned(published.1@),
            text::owned(names@) == all.take(i as int),
        decreases published.1.len() - i,
    {
        let ghost before = text::owned(names@);
        names.push(published.1[i].clone());
        assert(text::owned(names@) =~= before.push(all[i as int]));
        i += 1;
        assert(all.take(i as int) =~= all.take(i - 1).push(all[i - 1]));
    }
    assert(all.take(all.len() as int) =~= all);
    (published.0, published.1.len(), names)
}

/// The process that a directory of the application group stands for.
pub open spec fn group_pid(name: Seq<char>) -> Option<int> {
    if text::starts(name, "pid_"@) {
        number::signed(name.skip(4), i32::MIN as int, i32::MAX as int)
    } else {
        None
    }
}

/// The processes that the directories stand for, in their order.
pub open spec fn group_pids(names: Seq<Seq<char>>) -> Seq<int>
    decreases names.len(),
{
    if names.len() == 0 {
        seq![]
    } else {
        let rest = group_pids(names.drop_last());
        match group_pid(names.last()) {
            Some(p) => rest.push(p),
            None => rest,
        }
    }
}

/// The processes of an application, from the names in its group directory.
pub fn cgroup_apps_pids(names: &Vec<String>) -> (r: Vec<i32>)
    ensures
        r@.map_values(|p: i32| p as int) == group_pids(text::owned(names@)),
{
    let mut r: Vec<i32> = Vec::new();
    let ghost all = text::owned(names@);
    let ghost f = |p: i32| p as int;
    let mut i: usize = 0;
    assert(r@.map_values(f) =~= Seq::<int>::empty());
    assert(all.take(0) =~= Seq::<Seq<char>>::empty());
    while i < names.len()
        invariant
            i <= names.len(),
            all == text::owned(names@),
            f == (|p: i32| p as int),
            r@.map_values(f) == group_pids(all.take(i as int)),
        decreases names.len() - i,
    {
        let name = names[i].as_str();
        proof {
            let b = all.take(i + 1);
            assert(b.drop_last() =~= all.take(i as int));
            assert(b.last() == name@);
            reveal_strlit("pid_");
        }
        let ghost r0 = r@.map_values(f);
        if text::starts_with(name, "pid_") {
            if let Some(p) = number::parse_i32(text::tail(name, 4)) {
                r.push(p);
                assert(r@.map_values(f) =~= r0.push(p as int));
            }
        }
        i += 1;
    }
    assert(all.take(all.len() as int) =~= all);
    r
}

/// The numbers of the threads with a given name, in their order.
pub fn threads_named(threads: &Vec<ThreadInfo>, name: &str) -> (r: Vec<i32>)
    ensures
        r@ == threads@.filter(|t: ThreadInfo| t.comm@ == name@).map_values(|t: ThreadInfo| t.tid),
{
    let mut r: Vec<i32> = Vec::new();
    let ghost f = |t: ThreadInfo| t.comm@ == name@;
    let ghost g = |t: ThreadInfo| t.tid;
    let mut i: usize = 0;
    proof {
        lemma_filter_nothing(threads@.take(0), f);
        assert(r@ =~= threads@.take(0).filter(f).map_values(g));
    }
    while i < threads.len()
        invariant
            i <= threads.len(),
            f == (|t: ThreadInfo| t.comm@ == name@),
            g == (|t: ThreadInfo| t.tid),
            r@ == threads@.take(i as int).filter(f).map_values(g),
        decreases threads.len() - i,
    {
        let t = &threads[i];
        let ghost a = threads@.take(i as int);
        let ghost r0 = r@;
        proof {
            assert(threads@.take(i + 1) =~= a.push(threads@[i as int]));
            lemma_filter_push(a, threads@[i as int], f);
        }
        if text::same(t.comm.as_str(), name) {
            r.push(t.tid);
            assert(r@ =~= a.filter(f).push(threads@[i as int]).map_values(g));
        }
        i += 1;
    }
    assert(threads@.take(threads@.len() as int) =~= threads@);
    r
}

/// An application with rules: its package, its user number, and its processes
/// where its group directory was there.
pub struct AppProcs {
    pub pkg: String,
    pub uid: i32,
    pub pids: Option<Vec<i32>>,
}

/// The application runs.
pub open spec fn runs(a: AppProcs) -> bool {
    a.pids matches Some(p) && p@.len() > 0
}

/// How many of the first `n` applications run.
pub open spec fn running(apps: Seq<AppProcs>, n: nat) -> nat
    decreases n,
{
    if n == 0 {
        0
    } else if runs(apps[n - 1]) {
        running(apps, (n - 1) as nat) + 1
    } else {
        running(apps, (n - 1) as nat)
    }
}

/// The packages by user number, with those of the running applications.
pub open spec fn uids_after(m: Map<i32, Seq<char>>, apps: Seq<AppProcs>, n: nat) -> Map<
    i32,
    Seq<char>,
>
    decreases n,
{
    if n == 0 {
        m
    } else {
        let rest = uids_after(m, apps, (n - 1) as nat);
        if runs(apps[n - 1]) {
            rest.insert(apps[n - 1].uid, apps[n - 1].pkg@)
        } else {
            rest
        }
    }
}

/// The names of a map.
pub open spec fn uid_names(m: Map<i32, String>) -> Map<i32, Seq<char>> {
    Map::new(|u: i32| m.contains_key(u), |u: i32| m[u]@)
}

impl CpuAffinity {
    /// Takes the applications that run into the books when all are placed; how
    /// many there are. Which of them is in the foreground is not learnt here.
    pub fn apply_all(&mut self, apps: &Vec<AppProcs>) -> (r: usize)
        requires
            old(self).wf(),
        ensures
            final(self).wf(),
            r == running(apps@, apps@.len()),
            uid_names(final(self).uid_pkg@) == uids_after(
                uid_names(old(self).uid_pkg@),
                apps@,
                apps@.len(),
            ),
            final(self).managed == old(self).managed,
            final(self).pending == old(self).pending,
            final(self).cpuset_cache == old(self).cpuset_cache,
    {
        let ghost m = uid_names(self.uid_pkg@);
        let mut n: usize = 0;
        let mut i: usize = 0;
        while i < apps.len()
            invariant
                i <= apps.len(),
                n <= i,
                n == running(apps@, i as nat),
                self.wf(),
                self.managed == old(self).managed,
                self.pending == old(self).pending,
                self.cpuset_cache == old(self).cpuset_cache,
                uid_names(self.uid_pkg@) == uids_after(m, apps@, i as nat),
            decreases apps.len() - i,
        {
            let a = &apps[i];
            let here: bool = match &a.pids {
                Some(p) => p.len() > 0,
                None => false,
            };
            let ghost before = self.uid_pkg@;
            if here {
                self.note_uid(a.uid, a.pkg.as_str());
                n = n + 1;
                proof {
                    let now = self.uid_pkg@;
                    assert forall|u: i32| u != a.uid && before.contains_key(u) implies now[u]
                        == before[u] by {
                        assert(now.remove(a.uid).contains_key(u));
                        assert(now.remove(a.uid)[u] == before.remove(a.uid)[u]);
                    }
                    assert(uid_names(now) =~= uid_names(before).insert(a.uid, a.pkg@));
                }
            }
            i += 1;
        }
        n
    }
}

/// The worker sleeps until the first placement is due: no longer than until any
/// of them is, not at all where one is, and an hour where there is none.
pub proof fn the_first_placement_ends_the_wait(ps: Seq<PendingView>, now: int, i: int)
    requires
        0 <= i < ps.len(),
    ensures
        0 <= wait_for(ps, now),
        ps[i].due > now ==> wait_for(ps, now) <= ps[i].due - now,
        ps[i].due <= now ==> wait_for(ps, now) == 0,
        exists|k: int|
            0 <= k < ps.len() && wait_for(ps, now) == if (#[trigger] ps[k]).due > now {
                ps[k].due - now
            } else {
                0
            },
        wait_for(seq![], now) == 3600000,
    decreases ps.len(),
{
    let n = ps.len() - 1;
    if n > 0 {
        let init = ps.drop_last();
        let j = if i < n {
            i
        } else {
            0
        };
        the_first_placement_ends_the_wait(init, now, j);
        assert(init[j] == ps[j]);
        let k = choose|k: int|
            0 <= k < init.len() && wait_for(init, now) == if (#[trigger] init[k]).due > now {
                init[k].due - now
            } else {
                0
            };
        assert(ps[k] == init[k]);
    }
    assert(ps[n] == ps.last());
}

/// A placement that is put off takes the place of the one that the same
/// application waits for; every other one still waits.
pub proof fn placements_are_merged(ps: Seq<PendingView>, t: PendingView, i: int)
    requires
        is_merged(ps),
    ensures
        is_merged(merged(ps, t)),
        merged(ps, t).contains(t),
        0 <= i < ps.len() && ps[i].uid != t.uid ==> merged(ps, t).contains(ps[i]),
        forall|k: int|
            0 <= k < merged(ps, t).len() && (#[trigger] merged(ps, t)[k]).uid == t.uid ==> merged(
                ps,
                t,
            )[k] == t,
        forall|k: int|
            0 <= k < merged(ps, t).len() ==> (#[trigger] merged(ps, t)[k]) == t || ps.contains(
                merged(ps, t)[k],
            ),
{
    lemma_pending_found(ps, t.uid);
    let k = pending_of(ps, t.uid);
    let all = merged(ps, t);
    if k < ps.len() {
        assert(all[k] == t);
        if 0 <= i < ps.len() && ps[i].uid != t.uid {
            assert(all[i] == ps[i]);
        }
        assert forall|a: int, b: int| 0 <= a < b < all.len() implies (#[trigger] all[a]).uid != (
        #[trigger] all[b]).uid by {
            assert(ps[a].uid != ps[b].uid);
        }
        assert forall|a: int| 0 <= a < all.len() implies (#[trigger] all[a]) == t || ps.contains(
            all[a],
        ) by {
            if a != k {
                assert(ps[a] == all[a]);
            }
        }
        assert forall|a: int| 0 <= a < all.len() && (#[trigger] all[a]).uid == t.uid implies all[a]
            == t by {
            if a < k {
                assert(ps[a].uid != ps[k].uid);
            } else if a > k {
                assert(ps[k].uid != ps[a].uid);
            }
        }
    } else {
        assert(all[ps.len() as int] == t);
        if 0 <= i < ps.len() {
            assert(all[i] == ps[i]);
        }
        assert forall|a: int, b: int| 0 <= a < b < all.len() implies (#[trigger] all[a]).uid != (
        #[trigger] all[b]).uid by {
            if b < ps.len() {
                assert(ps[a].uid != ps[b].uid);
            } else {
                assert(ps[a].uid != t.uid);
            }
        }
        assert forall|a: int| 0 <= a < all.len() implies (#[trigger] all[a]) == t || ps.contains(
            all[a],
        ) by {
            if a < ps.len() {
                assert(ps[a] == all[a]);
            }
        }
        assert forall|a: int| 0 <= a < all.len() && (#[trigger] all[a]).uid == t.uid implies all[a]
            == t by {
            if a < ps.len() {
                assert(ps[a].uid != t.uid);
            }
        }
    }
}

proof fn lemma_pending_found(ps: Seq<PendingView>, uid: i32)
    ensures
        0 <= pending_of(ps, uid) <= ps.len(),
        pending_of(ps, uid) < ps.len() ==> ps[pending_of(ps, uid)].uid == uid,
        forall|j: int| 0 <= j < pending_of(ps, uid) ==> (#[trigger] ps[j]).uid != uid,
    decreases ps.len(),
{
    if ps.len() > 0 && ps[0].uid != uid {
        let t = ps.skip(1);
        lemma_pending_found(t, uid);
        assert forall|j: int| 0 <= j < pending_of(ps, uid) implies (#[trigger] ps[j]).uid != uid by {
            if j > 0 {
                assert(t[j - 1] == ps[j]);
            }
        }
        if pending_of(ps, uid) < ps.len() {
            assert(t[pending_of(t, uid)] == ps[pending_of(ps, uid)]);
        }
    }
}

/// An application that comes to the foreground cold is known from then on, with
/// its main process, and is placed when its time has come.
pub proof fn cold_applications_are_known_and_wait(
    w: CpuAffinity,
    known: CpuKnown,
    pid: i32,
    uid: i32,
    pkg: String,
    due: int,
    w2: CpuAffinity,
    known2: CpuKnown,
    action: CpuAction,
    other: i32,
    main: i32,
)
    requires
        w.wf(),
        other != uid,
        handled(w, known, CpuMsg::ApplyPkg(pid, uid, pkg), true, due, w2, known2, action),
    ensures
        known_as(known2, uid, pid),
        known_as(known2, other, main) == known_as(known, other, main),
        pending_views(w2.pending@).contains(PendingView { due, pid, uid, pkg: pkg@ }),
        action is Idle,
{
    let t = PendingView { due, pid, uid, pkg: pkg@ };
    placements_are_merged(pending_views(w.pending@), t, 0);
    assert(known2.map@.remove(uid) == known.map@.remove(uid));
    assert(known2.map@.remove(uid).contains_key(other) == known2.map@.contains_key(other));
    assert(known.map@.remove(uid).contains_key(other) == known.map@.contains_key(other));
    if known.map@.contains_key(other) {
        assert(known2.map@.remove(uid)[other] == known.map@.remove(uid)[other]);
    }
}

/// Changed rules are put in force only for an application that is known, in the
/// processes that are listed for it, and without touching the books.
pub proof fn changed_rules_are_replayed(
    w: CpuAffinity,
    known: CpuKnown,
    uid: i32,
    pkg: String,
    thread: String,
    due: int,
    w2: CpuAffinity,
    known2: CpuKnown,
    action: CpuAction,
)
    ensures
        handled(w, known, CpuMsg::ApplyPkgByUid(uid, pkg), true, due, w2, known2, action)
            && known.map@.contains_key(uid) ==> (action matches CpuAction::Replay {
            uid: u,
            pkg: p,
            pids,
        } && u == uid && p@ == pkg@ && (known.map@[uid].1@.len() > 0 ==> (pids matches Some(l)
            && l@ == known.map@[uid].1@))),
        handled(
            w,
            known,
            CpuMsg::ApplyThreadByUid(uid, pkg, thread),
            true,
            due,
            w2,
            known2,
            action,
        ) && known.map@.contains_key(uid) ==> (action matches CpuAction::ReplayThread {
            uid: u,
            pkg: p,
            thread: t,
            pids,
        } && u == uid && p@ == pkg@ && t@ == thread@ && (known.map@[uid].1@.len() > 0 ==> (
        pids matches Some(l) && l@ == known.map@[uid].1@))),
        handled(w, known, CpuMsg::ApplyPkgByUid(uid, pkg), true, due, w2, known2, action)
            && !known.map@.contains_key(uid) ==> action is Idle && known2 == known,
        handled(w, known, CpuMsg::PublishStats, true, due, w2, known2, action) ==> action is Publish
            && known2 == known && w2.managed == w.managed,
{
}

/// Evicting an application leaves no trace of it: it is no longer hot for any
/// process, and nothing waits for it.
pub proof fn evicting_is_complete(
    w: CpuAffinity,
    known: CpuKnown,
    uid: i32,
    w2: CpuAffinity,
    known2: CpuKnown,
)
    requires
        w.wf(),
        evicted(w, known, uid, w2, known2),
    ensures
        forall|pid: i32| !known_as(known2, uid, pid),
        forall|i: int|
            0 <= i < pending_views(w2.pending@).len() ==> (#[trigger] pending_views(
                w2.pending@,
            )[i]).uid != uid,
        !w2.uid_pkg@.contains_key(uid),
{
    let ps = pending_views(w.pending@);
    let f = |p: PendingView| p.uid != uid;
    lemma_filter_holds(ps, f);
}

proof fn lemma_filter_holds(ps: Seq<PendingView>, f: spec_fn(PendingView) -> bool)
    ensures
        forall|i: int| 0 <= i < ps.filter(f).len() ==> f(#[trigger] ps.filter(f)[i]),
    decreases ps.len(),
{
    if ps.len() == 0 {
        lemma_filter_nothing(ps, f);
    } else {
        let init = ps.drop_last();
        assert(init.push(ps.last()) =~= ps);
        lemma_filter_holds(init, f);
        lemma_filter_push(init, ps.last(), f);
        let a = init.filter(f);
        assert forall|i: int| 0 <= i < ps.filter(f).len() implies f(#[trigger] ps.filter(f)[i]) by {
            if i < a.len() {
                assert(ps.filter(f)[i] == a[i]);
            }
        }
    }
}

/// Taking the due placements out parts them: each is taken if and only if its
/// time has come, and none is lost.
pub proof fn due_and_rest_make_up_all(ps: Seq<PendingView>, now: int)
    ensures
        split_due(ps, now, true).len() + split_due(ps, now, false).len() == ps.len(),
        forall|i: int|
            0 <= i < split_due(ps, now, true).len() ==> (#[trigger] split_due(
                ps,
                now,
                true,
            )[i]).due <= now,
        forall|i: int|
            0 <= i < split_due(ps, now, false).len() ==> (#[trigger] split_due(
                ps,
                now,
                false,
            )[i]).due > now,
    decreases ps.len(),
{
    let f = |p: PendingView| (p.due <= now) == true;
    let g = |p: PendingView| (p.due <= now) == false;
    lemma_filter_holds(ps, f);
    lemma_filter_holds(ps, g);
    assert(split_due(ps, now, true) == ps.filter(f));
    assert(split_due(ps, now, false) == ps.filter(g));
    if ps.len() == 0 {
        lemma_filter_nothing(ps, f);
        lemma_filter_nothing(ps, g);
    } else {
        let init = ps.drop_last();
        assert(init.push(ps.last()) =~= ps);
        due_and_rest_make_up_all(init, now);
        assert(split_due(init, now, true) == init.filter(f));
        assert(split_due(init, now, false) == init.filter(g));
        lemma_filter_push(init, ps.last(), f);
        lemma_filter_push(init, ps.last(), g);
    }
}

} // verus!
