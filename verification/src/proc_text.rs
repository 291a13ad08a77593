//! What the files under `/proc` say of processes and threads.
use std::collections::{HashMap, HashSet};

use vstd::prelude::*;

use crate::names::NameSet;
use crate::number;
use crate::refresh_lines::DEFAULT_REFRESH_PACKAGE;
use crate::text;

verus! {

broadcast use {vstd::string::group_string_axioms, vstd::std_specs::hash::group_hash_axioms};

/// The bytes before the first zero byte, or before the first line feed where
/// `or_newline` asks for that too.
pub open spec fn upto_end(b: Seq<u8>, or_newline: bool) -> Seq<u8>
    decreases b.len(),
{
    if b.len() == 0 || b[0] == 0 || (or_newline && b[0] == 10) {
        seq![]
    } else {
        seq![b[0]] + upto_end(b.skip(1), or_newline)
    }
}

proof fn lemma_upto_end(b: Seq<u8>, or_newline: bool, k: int)
    requires
        0 <= k <= b.len(),
        forall|j: int| 0 <= j < k ==> b[j] != 0 && !(or_newline && b[j] == 10),
        k < b.len() ==> b[k] == 0 || (or_newline && b[k] == 10),
    ensures
        upto_end(b, or_newline) == b.take(k),
    decreases k,
{
    if k == 0 {
        assert(b.take(0) =~= Seq::<u8>::empty());
    } else {
        assert(b[0] != 0 && !(or_newline && b[0] == 10));
        let t = b.skip(1);
        assert forall|j: int| 0 <= j < k - 1 implies t[j] != 0 && !(or_newline && t[j] == 10) by {
            assert(t[j] == b[j + 1]);
        }
        if k < b.len() {
            assert(t[k - 1] == b[k]);
        }
        lemma_upto_end(t, or_newline, k - 1);
        assert(seq![b[0]] + t.take(k - 1) =~= b.take(k));
    }
}

/// The bytes before the end mark.
fn cut_end(b: &[u8], or_newline: bool) -> (r: Vec<u8>)
    ensures
        r@ == upto_end(b@, or_newline),
{
    let mut r: Vec<u8> = Vec::new();
    let mut i: usize = 0;
    while i < b.len() && b[i] != 0 && !(or_newline && b[i] == 10)
        invariant
            i <= b.len(),
            r@ == b@.take(i as int),
            forall|j: int| 0 <= j < i ==> b@[j] != 0 && !(or_newline && b@[j] == 10),
        decreases b.len() - i,
    {
        r.push(b[i]);
        i += 1;
        assert(b@.take(i as int) =~= b@.take(i - 1).push(b@[i - 1]));
    }
    proof {
        lemma_upto_end(b@, or_newline, i as int);
    }
    r
}

/// The name of a process, from the bytes of its `cmdline`: the last part of the
/// path of its program, trimmed. Nothing where that is empty or no text.
pub open spec fn process_name(b: Seq<u8>) -> Option<Seq<char>> {
    let line = upto_end(b, false);
    let name = text::trimmed(text::after_last(vstd::utf8::decode_utf8(line), '/'));
    if vstd::utf8::valid_utf8(line) && name.len() > 0 {
        Some(name)
    } else {
        None
    }
}

/// Reads the name of a process.
pub fn read_cmdline(bytes: &[u8]) -> (r: Option<String>)
    ensures
        match r {
            Some(s) => process_name(bytes@) == Some(s@),
            None => process_name(bytes@) is None,
        },
{
    let line = cut_end(bytes, false);
    match text::utf8_text(line.as_slice()) {
        Some(t) => {
            let name = text::trim(text::tail_after_last(t, '/'));
            if name.is_empty() {
                None
            } else {
                Some(name.to_owned())
            }
        },
        None => None,
    }
}

/// The name of a thread, from the bytes of its `comm`: the first line, trimmed.
/// Nothing where there are no bytes or they are no text.
pub open spec fn thread_name(b: Seq<u8>) -> Option<Seq<char>> {
    let line = upto_end(b, true);
    if b.len() > 0 && vstd::utf8::valid_utf8(line) {
        Some(text::trimmed(vstd::utf8::decode_utf8(line)))
    } else {
        None
    }
}

/// Reads the name of a thread.
pub fn tid_comm(bytes: &[u8]) -> (r: Option<String>)
    ensures
        match r {
            Some(s) => thread_name(bytes@) == Some(s@),
            None => thread_name(bytes@) is None,
        },
{
    if bytes.len() == 0 {
        return None;
    }
    let line = cut_end(bytes, true);
    match text::utf8_text(line.as_slice()) {
        Some(t) => Some(text::trim(t).to_owned()),
        None => None,
    }
}

/// The numbers among some names, in their order.
pub open spec fn numbers_in(names: Seq<Seq<char>>) -> Seq<int>
    decreases names.len(),
{
    if names.len() == 0 {
        seq![]
    } else {
        let rest = numbers_in(names.drop_last());
        match number::signed(names.last(), i32::MIN as int, i32::MAX as int) {
            Some(p) => rest.push(p),
            None => rest,
        }
    }
}

/// The threads of a process, from the names in its `task` directory.
pub fn task_tids(names: &Vec<String>) -> (r: Vec<i32>)
    ensures
        r@.map_values(|p: i32| p as int) == numbers_in(text::owned(names@)),
{
    let mut r: Vec<i32> = Vec::new();
    let ghost all = text::owned(names@);
    let ghost f = |p: i32| p as int;
    let mut i: usize = 0;
    assert(r@.map_values(f) =~= Seq::<int>::empty());
    assert(all.take(0) =~= Seq::<Seq<char>>::empty());
    while i < names.len()
        invariant
            i <= names.len(),
            all == text::owned(names@),
            f == (|p: i32| p as int),
            r@.map_values(f) == numbers_in(all.take(i as int)),
        decreases names.len() - i,
    {
        let name = names[i].as_str();
        proof {
            let b = all.take(i + 1);
            assert(b.drop_last() =~= all.take(i as int));
            assert(b.last() == name@);
        }
        let ghost r0 = r@.map_values(f);
        if let Some(p) = number::parse_i32(name) {
            r.push(p);
            assert(r@.map_values(f) =~= r0.push(p as int));
        }
        i += 1;
    }
    assert(all.take(all.len() as int) =~= all);
    r
}

/// The highest process number that belongs to the system at start-up; higher
/// ones may be those of applications.
pub const INIT_PIDS_MAX_PID: i32 = 6100;

/// The process is one of the system's.
pub open spec fn is_init_pid(p: i32) -> bool {
    0 < p <= INIT_PIDS_MAX_PID
}

/// The processes of the system, from the names in `/proc`.
pub fn proc_pid_set(names: &Vec<String>) -> (r: HashSet<i32>)
    ensures
        r@ == Set::new(
            |p: i32| is_init_pid(p) && numbers_in(text::owned(names@)).contains(p as int),
        ),
{
    let pids = task_tids(names);
    let ghost ns = numbers_in(text::owned(names@));
    let ghost f = |p: i32| p as int;
    let mut r: HashSet<i32> = HashSet::new();
    let mut i: usize = 0;
    while i < pids.len()
        invariant
            i <= pids.len(),
            forall|p: i32|
                #![trigger r@.contains(p)]
                r@.contains(p) <==> is_init_pid(p) && pids@.take(i as int).contains(p),
        decreases pids.len() - i,
    {
        let p: i32 = pids[i];
        let ghost before = r@;
        if p > 0 && p <= INIT_PIDS_MAX_PID {
            r.insert(p);
        }
        proof {
            let a = pids@.take(i as int);
            let b = pids@.take(i + 1);
            assert(b =~= a.push(p));
            assert forall|x: i32|
                #![trigger r@.contains(x)]
                r@.contains(x) <==> is_init_pid(x) && b.contains(x) by {
                if a.contains(x) {
                    let k = a.index_of(x);
                    assert(b[k] == x);
                }
                assert(b[i as int] == p);
                assert(before.contains(x) <==> is_init_pid(x) && a.contains(x));
            }
        }
        i += 1;
    }
    proof {
        assert(pids@.take(pids@.len() as int) =~= pids@);
        assert forall|p: i32| pids@.contains(p) <==> ns.contains(p as int) by {
            if pids@.contains(p) {
                let k = pids@.index_of(p);
                assert(pids@.map_values(f)[k] == p as int);
            }
            if ns.contains(p as int) {
                let k = ns.index_of(p as int);
                assert(pids@.map_values(f)[k] == p as int);
                assert(pids@[k] == p);
            }
        }
        assert(r@ =~= Set::new(
            |p: i32| is_init_pid(p) && numbers_in(text::owned(names@)).contains(p as int),
        ));
    }
    r
}

/// The user number in the lines of a `status` file, from line `i` on: the first
/// value of the first line for `Uid`.
pub open spec fn uid_from(lines: Seq<Seq<char>>, i: int) -> Option<int>
    decreases lines.len() - i,
{
    if i >= lines.len() {
        None
    } else if text::starts(lines[i], "Uid:"@) {
        let ws = text::words(lines[i].skip(4));
        if ws.len() > 0 {
            number::signed(ws[0], i32::MIN as int, i32::MAX as int)
        } else {
            None
        }
    } else {
        uid_from(lines, i + 1)
    }
}

/// The user number of a process, from its `status`.
pub fn proc_uid(status: &str) -> (r: Option<i32>)
    ensures
        match r {
            Some(u) => uid_from(text::line_seq(status@), 0) == Some(u as int),
            None => uid_from(text::line_seq(status@), 0) is None,
        },
{
    let lines = text::lines(status);
    let ghost all = text::line_seq(status@);
    let mut i: usize = 0;
    while i < lines.len()
        invariant
            i <= lines.len(),
            text::views(lines@) == all,
            all == text::line_seq(status@),
            uid_from(all, 0) == uid_from(all, i as int),
        decreases lines.len() - i,
    {
        let line = lines[i];
        assert(line@ == all[i as int]);
        proof {
            reveal_strlit("Uid:");
        }
        if text::starts_with(line, "Uid:") {
            let rest = text::tail(line, 4);
            let ws = text::split_whitespace(rest);
            if ws.len() == 0 {
                assert(text::words(rest@).len() == 0);
                return None;
            }
            assert(ws@[0]@ == text::words(rest@)[0]);
            return number::parse_i32(ws[0]);
        }
        i += 1;
    }
    None
}

/// The process belongs to the package: it has its name, or its name and a part
/// behind a colon.
pub open spec fn is_of_package(cmd: Seq<char>, pkg: Seq<char>) -> bool {
    cmd == pkg || text::starts(cmd, pkg + seq![':'])
}

/// Whether a process belongs to a package.
pub fn same_pkg(cmd: &str, pkg: &str) -> (r: bool)
    ensures
        r == is_of_package(cmd@, pkg@),
{
    if text::same(cmd, pkg) {
        return true;
    }
    let mut p: String = pkg.to_owned();
    p.push(':');
    assert(p@ =~= pkg@ + seq![':']);
    text::starts_with(cmd, p.as_str())
}

/// The first name, from `i` on, of a package that a process belongs to.
pub open spec fn owner_from(cmd: Seq<char>, names: Seq<Seq<char>>, i: int) -> Option<Seq<char>>
    decreases names.len() - i,
{
    if i >= names.len() {
        None
    } else if is_of_package(cmd, names[i]) {
        Some(names[i])
    } else {
        owner_from(cmd, names, i + 1)
    }
}

/// A package with rules that a process belongs to: the first in the list.
pub fn resolve_pkg(cmd: &str, pkgs: &NameSet) -> (r: Option<String>)
    ensures
        match r {
            Some(p) => owner_from(cmd@, text::owned(pkgs.names@), 0) == Some(p@) && pkgs@.contains(
                p@,
            ) && is_of_package(cmd@, p@),
            None => owner_from(cmd@, text::owned(pkgs.names@), 0) is None && forall|p: Seq<char>|
                #[trigger] pkgs@.contains(p) ==> !is_of_package(cmd@, p),
        },
{
    let ghost all = text::owned(pkgs.names@);
    let mut i: usize = 0;
    while i < pkgs.names.len()
        invariant
            i <= pkgs.names.len(),
            all == text::owned(pkgs.names@),
            forall|j: int| 0 <= j < i ==> !is_of_package(cmd@, #[trigger] all[j]),
            owner_from(cmd@, all, 0) == owner_from(cmd@, all, i as int),
        decreases pkgs.names.len() - i,
    {
        assert(all[i as int] == pkgs.names@[i as int]@);
        if same_pkg(cmd, pkgs.names[i].as_str()) {
            assert(pkgs@.contains(all[i as int]));
            return Some(pkgs.names[i].clone());
        }
        i += 1;
    }
    None
}

/// A process with the name that was read, where one was.
pub struct NamedProc {
    pub pid: i32,
    pub cmd: Option<String>,
}

/// The process belongs to `pkg`.
pub open spec fn proc_is_of(p: NamedProc, pkg: Seq<char>) -> bool {
    p.cmd matches Some(c) && is_of_package(c@, pkg)
}

/// The processes of the home screen, and those of the system bars, in their
/// order.
pub fn classify_marked_pids(procs: &Vec<NamedProc>) -> (r: (Vec<i32>, Vec<i32>))
    ensures
        r.0@ == procs@.filter(
            |p: NamedProc| proc_is_of(p, "com.android.launcher3"@),
        ).map_values(|p: NamedProc| p.pid),
        r.1@ == procs@.filter(
            |p: NamedProc|
                !proc_is_of(p, "com.android.launcher3"@) && proc_is_of(
                    p,
                    "com.android.systemui"@,
                ),
        ).map_values(|p: NamedProc| p.pid),
{
    let ghost f = |p: NamedProc| proc_is_of(p, "com.android.launcher3"@);
    let ghost g = |p: NamedProc|
        !proc_is_of(p, "com.android.launcher3"@) && proc_is_of(p, "com.android.systemui"@);
    let ghost pid = |p: NamedProc| p.pid;
    let mut home: Vec<i32> = Vec::new();
    let mut bars: Vec<i32> = Vec::new();
    let mut i: usize = 0;
    proof {
        reveal(Seq::filter);
        assert(home@ =~= procs@.take(0).filter(f).map_values(pid));
        assert(bars@ =~= procs@.take(0).filter(g).map_values(pid));
    }
    while i < procs.len()
        invariant
            i <= procs.len(),
            f == (|p: NamedProc| proc_is_of(p, "com.android.launcher3"@)),
            g == (|p: NamedProc|
                !proc_is_of(p, "com.android.launcher3"@) && proc_is_of(
                    p,
                    "com.android.systemui"@,
                )),
            pid == (|p: NamedProc| p.pid),
            home@ == procs@.take(i as int).filter(f).map_values(pid),
            bars@ == procs@.take(i as int).filter(g).map_values(pid),
        decreases procs.len() - i,
    {
        let p = &procs[i];
        let ghost a = procs@.take(i as int);
        let ghost x = procs@[i as int];
        proof {
            reveal(Seq::filter);
            assert(procs@.take(i + 1) =~= a.push(x));
            assert(a.push(x).drop_last() =~= a);
        }
        if let Some(c) = &p.cmd {
            if same_pkg(c.as_str(), DEFAULT_REFRESH_PACKAGE) {
                home.push(p.pid);
                assert(f(x));
                assert(home@ =~= a.filter(f).push(x).map_values(pid));
            } else if same_pkg(c.as_str(), "com.android.systemui") {
                bars.push(p.pid);
                assert(g(x));
                assert(bars@ =~= a.filter(g).push(x).map_values(pid));
            }
        }
        i += 1;
    }
    assert(procs@.take(procs@.len() as int) =~= procs@);
    (home, bars)
}

/// How long the names of threads are kept, in seconds.
pub const THREAD_NAME_CACHE_TTL_SECS: i64 = 60;

/// The names of threads, kept for a while.
pub struct ThreadNameCache {
    pub names: HashMap<i32, String>,
    pub last_full_refresh: i64,
}

/// The names have been kept long enough.
pub open spec fn is_stale(c: ThreadNameCache, now: int) -> bool {
    now - c.last_full_refresh >= THREAD_NAME_CACHE_TTL_SECS
}

impl ThreadNameCache {
    /// No names yet.
    pub fn new(now: i64) -> (r: ThreadNameCache)
        ensures
            r.names@ == Map::<i32, String>::empty(),
            r.last_full_refresh == now,
    {
        ThreadNameCache { names: HashMap::new(), last_full_refresh: now }
    }

    /// Whether the name of a thread has to be read.
    pub fn needs_read(&self, tid: i32, now: i64) -> (r: bool)
        ensures
            r == (is_stale(*self, now as int) || !self.names@.contains_key(tid)),
    {
        (now as i128) - (self.last_full_refresh as i128) >= THREAD_NAME_CACHE_TTL_SECS as i128
            || !self.names.contains_key(&tid)
    }

    /// The name of a thread: the one that is kept, or else the one that was
    /// read, which is kept from now on; nothing read counts as empty. When the
    /// names have been kept long enough all are forgotten first.
    pub fn get_or_read(&mut self, tid: i32, now: i64, read: Option<String>) -> (r: String)
        ensures
            ({
                let stale = is_stale(*old(self), now as int);
                let kept = if stale {
                    Map::<i32, String>::empty()
                } else {
                    old(self).names@
                };
                &&& final(self).last_full_refresh == if stale {
                    now
                } else {
                    old(self).last_full_refresh
                }
                &&& if kept.contains_key(tid) {
                    r@ == kept[tid]@ && final(self).names@ == kept
                } else {
                    &&& r@ == (match read {
                        Some(s) => s@,
                        None => Seq::<char>::empty(),
                    })
                    &&& final(self).names@.dom() == kept.dom().insert(tid)
                    &&& final(self).names@[tid]@ == r@
                    &&& final(self).names@.remove(tid) == kept
                }
            }),
    {
        if (now as i128) - (self.last_full_refresh as i128) >= THREAD_NAME_CACHE_TTL_SECS as i128 {
            self.names.clear();
            self.last_full_refresh = now;
        }
        let ghost kept = self.names@;
        match self.names.get(&tid) {
            Some(s) => {
                return s.clone();
            },
            None => {},
        }
        let s: String = match read {
            Some(s) => s,
            None => String::new(),
        };
        assert(read is None ==> s@ =~= Seq::<char>::empty());
        let r = s.clone();
        self.names.insert(tid, s);
        proof {
            assert(self.names@.dom() =~= kept.dom().insert(tid));
            assert(self.names@.remove(tid) =~= kept);
        }
        r
    }

    /// Forgets the threads that are not among the current ones.
    pub fn retain(&mut self, current: &HashSet<i32>)
        ensures
            final(self).names@ == old(self).names@.restrict(current@),
            final(self).last_full_refresh == old(self).last_full_refresh,
    {
        let ghost m = self.names@;
        let ghost all = vstd::std_specs::iter::IteratorSpec::remaining(
            &vstd::std_specs::hash::spec_keys_iter(&self.names),
        ).unref();
        let mut gone: Vec<i32> = Vec::new();
        for k in it: self.names.keys()
            invariant
                it.seq().unref() == all,
                it.seq().len() == all.len(),
                all.to_set() == m.dom(),
                forall|j: int| 0 <= j < gone@.len() ==> !current@.contains(#[trigger] gone@[j]),
                forall|j: int|
                    0 <= j < it.index() && !current@.contains(#[trigger] all[j])
                        ==> gone@.contains(all[j]),
        {
            let ghost before = gone@;
            let t: i32 = *k;
            assert(all[it.index() as int] == t);
            if !current.contains(&t) {
                gone.push(t);
                assert(gone@[before.len() as int] == t);
            }
            assert forall|j: int|
                0 <= j < it.index() + 1 && !current@.contains(#[trigger] all[j]) implies gone@.contains(
                all[j],
            ) by {
                if j < it.index() {
                    let x = before.index_of(all[j]);
                    assert(gone@[x] == all[j]);
                }
            }
        }
        assert forall|t: i32| m.contains_key(t) && !current@.contains(t) implies gone@.contains(
            t,
        ) by {
            assert(all.to_set().contains(t));
            let j = all.index_of(t);
            assert(all[j] == t);
        }
        let mut i: usize = 0;
        assert(m.remove_keys(gone@.take(0).to_set()) =~= m);
        while i < gone.len()
            invariant
                i <= gone.len(),
                self.names@ == m.remove_keys(gone@.take(i as int).to_set()),
                self.last_full_refresh == old(self).last_full_refresh,
            decreases gone.len() - i,
        {
            let t: i32 = gone[i];
            let ghost before = self.names@;
            let _ = self.names.remove(&t);
            proof {
                let a = gone@.take(i as int);
                let b = gone@.take(i + 1);
                assert(b =~= a.push(t));
                assert forall|x: i32| b.contains(x) <==> (a.contains(x) || x == t) by {
                    if a.contains(x) {
                        let k = a.index_of(x);
                        assert(b[k] == x);
                    }
                    assert(b[i as int] == t);
                }
                assert(self.names@ =~= before.remove(t));
                assert(self.names@ =~= m.remove_keys(b.to_set()));
            }
            i += 1;
        }
        proof {
            assert(gone@.take(gone@.len() as int) =~= gone@);
            assert(self.names@ =~= m.restrict(current@));
        }
    }

    /// Forgets all names.
    pub fn clear(&mut self)
        ensures
            final(self).names@ == Map::<i32, String>::empty(),
            final(self).last_full_refresh == 0,
    {
        self.names.clear();
        self.last_full_refresh = 0;
    }
}

/// A process belongs to a package by its name alone, or by the name with a part
/// behind a colon; a longer name is another one.
pub proof fn processes_belong_by_their_names(pkg: Seq<char>, x: Seq<char>)
    ensures
        is_of_package(pkg, pkg),
        is_of_package(pkg + seq![':'] + x, pkg),
        x.len() > 0 && x[0] != ':' ==> !is_of_package(pkg + x, pkg),
{
    let a = pkg + seq![':'];
    assert((a + x).take(a.len() as int) =~= a);
    if x.len() > 0 && x[0] != ':' {
        let s = pkg + x;
        assert(s[pkg.len() as int] == x[0]);
        if s == pkg {
            assert(s.len() == pkg.len() + x.len());
        }
        if text::starts(s, a) {
            assert(s.take(a.len() as int)[pkg.len() as int] == ':');
        }
    }
}

/// The owner of a process is a package that it belongs to, and the first such in
/// the list.
pub proof fn owners_come_first(cmd: Seq<char>, names: Seq<Seq<char>>, i: int)
    requires
        0 <= i <= names.len(),
    ensures
        match owner_from(cmd, names, i) {
            Some(p) => exists|k: int|
                i <= k < names.len() && #[trigger] names[k] == p && is_of_package(cmd, p) && forall|
                    j: int,
                |
                    i <= j < k ==> !is_of_package(cmd, #[trigger] names[j]),
            None => forall|j: int|
                i <= j < names.len() ==> !is_of_package(cmd, #[trigger] names[j]),
        },
    decreases names.len() - i,
{
    if i < names.len() {
        if is_of_package(cmd, names[i]) {
            assert(names[i] == owner_from(cmd, names, i)->0);
        } else {
            owners_come_first(cmd, names, i + 1);
            if let Some(p) = owner_from(cmd, names, i + 1) {
                let k = choose|k: int|
                    i + 1 <= k < names.len() && #[trigger] names[k] == p && is_of_package(cmd, p)
                        && forall|j: int|
                        i + 1 <= j < k ==> !is_of_package(cmd, #[trigger] names[j]);
                assert(names[k] == p);
            }
        }
    }
}

/// The number of a process or thread is what its directory is called; other
/// names are passed over.
pub proof fn directories_give_numbers(names: Seq<Seq<char>>, n: nat, other: Seq<char>)
    requires
        n <= i32::MAX,
        other.len() > 0,
        !('0' <= other[0] <= '9') && other[0] != '-' && other[0] != '+',
    ensures
        numbers_in(names.push(number::dec(n))) == numbers_in(names).push(n as int),
        numbers_in(names.push(other)) == numbers_in(names),
        numbers_in(seq![]) == Seq::<int>::empty(),
{
    number::signed_reads_dec_int(n as int, i32::MIN as int, i32::MAX as int);
    assert(names.push(number::dec(n)).drop_last() =~= names);
    assert(names.push(other).drop_last() =~= names);
    let d = number::without_plus(other);
    assert(d == other);
    if number::all_digits(other) {
        assert(number::is_digit(other[0]));
    }
}

/// The user of a process is the first number behind `Uid:`.
pub proof fn users_stand_behind_uid(lines: Seq<Seq<char>>, k: int, uid: nat, rest: Seq<char>)
    requires
        0 <= k < lines.len(),
        uid <= i32::MAX,
        forall|j: int| 0 <= j < k ==> !text::starts(#[trigger] lines[j], "Uid:"@),
        lines[k] == "Uid:"@ + seq!['\t'] + number::dec(uid) + seq!['\t'] + rest,
    ensures
        uid_from(lines, 0) == Some(uid as int),
{
    reveal_strlit("Uid:");
    let d = number::dec(uid);
    number::dec_reads_back(uid);
    number::signed_reads_dec_int(uid as int, i32::MIN as int, i32::MAX as int);
    let tail = seq!['\t'] + d + seq!['\t'] + rest;
    let l = lines[k];
    assert(l.take(4) =~= "Uid:"@);
    assert(l.skip(4) =~= tail);
    let body = d + seq!['\t'] + rest;
    assert(tail.skip(1) =~= body);
    assert(text::is_space(tail[0]));
    assert(number::is_digit(d[0]));
    assert(body[0] == d[0]);
    let m = d.len() as int;
    assert forall|j: int| 0 <= j < m implies !text::is_space(#[trigger] body[j]) by {
        assert(body[j] == d[j]);
        assert(number::is_digit(d[j]));
    }
    assert(text::is_space(body[m]));
    text::lemma_word_len(body, m);
    assert(body.take(m) =~= d);
    reveal_with_fuel(text::words, 3);
    assert(text::words(l.skip(4))[0] == d);
    lemma_uid_at(lines, 0, k);
}

proof fn lemma_uid_at(lines: Seq<Seq<char>>, i: int, k: int)
    requires
        0 <= i <= k < lines.len(),
        forall|j: int| i <= j < k ==> !text::starts(#[trigger] lines[j], "Uid:"@),
    ensures
        uid_from(lines, i) == uid_from(lines, k),
    decreases k - i,
{
    if i < k {
        assert(!text::starts(lines[i], "Uid:"@));
        lemma_uid_at(lines, i + 1, k);
    }
}

/// What is read of a file of the kernel ends at its first zero byte, and where a
/// line is asked for also at its first line feed.
pub proof fn texts_end_at_their_marks(b: Seq<u8>, rest: Seq<u8>, line: bool)
    requires
        forall|i: int| 0 <= i < b.len() ==> #[trigger] b[i] != 0 && (line ==> b[i] != 10),
    ensures
        upto_end(b, line) == b,
        upto_end(b + seq![0u8] + rest, line) == b,
        line ==> upto_end(b + seq![10u8] + rest, line) == b,
    decreases b.len(),
{
    let z = b + seq![0u8] + rest;
    let n = b + seq![10u8] + rest;
    if b.len() == 0 {
        assert(z[0] == 0);
        assert(n[0] == 10);
        assert(b =~= Seq::<u8>::empty());
    } else {
        let t = b.skip(1);
        assert forall|i: int| 0 <= i < t.len() implies #[trigger] t[i] != 0 && (line ==> t[i]
            != 10) by {
            assert(t[i] == b[i + 1]);
        }
        texts_end_at_their_marks(t, rest, line);
        assert(z[0] == b[0] && n[0] == b[0]);
        assert(z.skip(1) =~= t + seq![0u8] + rest);
        assert(n.skip(1) =~= t + seq![10u8] + rest);
        assert(b =~= seq![b[0]] + t);
    }
}

} // verus!
