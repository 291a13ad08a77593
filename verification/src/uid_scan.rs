//! Finding the processes of an application among all processes, by user number
//! or by name.
use std::collections::HashSet;
use vstd::prelude::*;

use crate::names::{NameMap, NameSet};
use crate::proc_text;
use crate::text;

verus! {

broadcast use {vstd::string::group_string_axioms, vstd::std_specs::hash::group_hash_axioms};

/// A process: its name and its user number, where they could be read.
pub struct ScannedProc {
    pub pid: i32,
    pub cmd: Option<String>,
    pub uid: Option<i32>,
}

/// The process was not there at the start.
pub open spec fn is_new(p: ScannedProc, init: Set<i32>) -> bool {
    p.pid > 0 && !init.contains(p.pid)
}

/// The process has that name.
pub open spec fn is_named(p: ScannedProc, name: Seq<char>) -> bool {
    p.cmd matches Some(c) && c@ == name
}

/// The user number of the first new process with that name, from `i` on.
pub open spec fn uid_of_name(
    procs: Seq<ScannedProc>,
    init: Set<i32>,
    name: Seq<char>,
    i: int,
) -> Option<i32>
    decreases procs.len() - i,
{
    if i >= procs.len() {
        None
    } else if is_new(procs[i], init) && is_named(procs[i], name) && procs[i].uid is Some {
        procs[i].uid
    } else {
        uid_of_name(procs, init, name, i + 1)
    }
}

fn named(p: &ScannedProc, name: &str) -> (r: bool)
    ensures
        r == is_named(*p, name@),
{
    match &p.cmd {
        Some(c) => text::same(c.as_str(), name),
        None => false,
    }
}

/// The user number of a package: as it was found before, else that of its
/// marked process, else that of the first new process with its name. What is
/// found is kept.
pub fn pkg_to_uid(
    found: &mut NameMap<i32>,
    pkg: &str,
    marked: Option<i32>,
    procs: &Vec<ScannedProc>,
    init: &HashSet<i32>,
) -> (r: Option<i32>)
    requires
        old(found).wf(),
    ensures
        final(found).wf(),
        r == (if old(found)@.contains_key(pkg@) {
            Some(old(found)@[pkg@])
        } else if marked is Some {
            marked
        } else {
            uid_of_name(procs@, init@, pkg@, 0)
        }),
        final(found)@ == (match r {
            Some(u) => old(found)@.insert(pkg@, u),
            None => old(found)@,
        }),
{
    if let Some(u) = found.get(pkg) {
        let u: i32 = *u;
        assert(found@.insert(pkg@, u) =~= found@);
        return Some(u);
    }
    if let Some(u) = marked {
        found.insert(pkg, u);
        return Some(u);
    }
    let mut i: usize = 0;
    while i < procs.len()
        invariant
            i <= procs.len(),
            found.wf(),
            found@ == old(found)@,
            !old(found)@.contains_key(pkg@),
            marked is None,
            uid_of_name(procs@, init@, pkg@, 0) == uid_of_name(procs@, init@, pkg@, i as int),
        decreases procs.len() - i,
    {
        let p = &procs[i];
        if p.pid > 0 && !init.contains(&p.pid) && named(p, pkg) {
            if let Some(u) = p.uid {
                found.insert(pkg, u);
                return Some(u);
            }
        }
        i += 1;
    }
    None
}

/// The new processes with that user number among the first `n`.
pub open spec fn pids_after(procs: Seq<ScannedProc>, n: nat, init: Set<i32>, uid: i32) -> Seq<i32>
    decreases n,
{
    if n == 0 {
        seq![]
    } else {
        let s = pids_after(procs, (n - 1) as nat, init, uid);
        if is_new(procs[n - 1], init) && procs[n - 1].uid == Some(uid) {
            s.push(procs[n - 1].pid)
        } else {
            s
        }
    }
}

/// The processes of an application: those that are marked as its own, else the
/// new ones with its user number.
pub fn on_uid(
    uid: i32,
    marked: Option<&Vec<i32>>,
    procs: &Vec<ScannedProc>,
    init: &HashSet<i32>,
) -> (r: Vec<i32>)
    ensures
        r@ == (if uid <= 0 {
            seq![]
        } else {
            match marked {
                Some(m) => m@,
                None => pids_after(procs@, procs@.len(), init@, uid),
            }
        }),
{
    if uid <= 0 {
        return Vec::new();
    }
    if let Some(m) = marked {
        let r = m.clone();
        assert(r@ =~= m@);
        return r;
    }
    let mut r: Vec<i32> = Vec::new();
    let mut i: usize = 0;
    while i < procs.len()
        invariant
            i <= procs.len(),
            r@ == pids_after(procs@, i as nat, init@, uid),
        decreases procs.len() - i,
    {
        let p = &procs[i];
        if p.pid > 0 && !init.contains(&p.pid) {
            if let Some(u) = p.uid {
                if u == uid {
                    r.push(p.pid);
                }
            }
        }
        i += 1;
    }
    r
}

/// Processes that are marked as those of a package.
pub struct Marked {
    pub pkg: String,
    pub pids: Vec<i32>,
}

/// The process is marked as one of some package.
pub open spec fn is_marked(marked: Seq<Marked>, pid: i32) -> bool {
    exists|m: int| 0 <= m < marked.len() && (#[trigger] marked[m]).pids@.contains(pid)
}

/// The processes that are marked as those of a package, in their order.
pub open spec fn marked_pids(marked: Seq<Marked>, pkg: Seq<char>) -> Seq<i32>
    decreases marked.len(),
{
    if marked.len() == 0 {
        seq![]
    } else if marked.last().pkg@ == pkg {
        marked_pids(marked.drop_last(), pkg) + marked.last().pids@
    } else {
        marked_pids(marked.drop_last(), pkg)
    }
}

/// The package, of those named, that a process is told to be of by its name; a
/// marked process is not told by its name.
pub open spec fn told_owner(
    p: ScannedProc,
    marked: Seq<Marked>,
    names: Seq<Seq<char>>,
) -> Option<Seq<char>> {
    if p.pid <= 0 || is_marked(marked, p.pid) {
        None
    } else {
        match p.cmd {
            Some(c) => proc_text::owner_from(c@, names, 0),
            None => None,
        }
    }
}

/// The processes that are told by their names to be of a package, in the order
/// of the scan.
pub open spec fn told_pids(
    procs: Seq<ScannedProc>,
    marked: Seq<Marked>,
    names: Seq<Seq<char>>,
    pkg: Seq<char>,
) -> Seq<i32>
    decreases procs.len(),
{
    if procs.len() == 0 {
        seq![]
    } else {
        let rest = told_pids(procs.drop_last(), marked, names, pkg);
        if told_owner(procs.last(), marked, names) == Some(pkg) {
            rest.push(procs.last().pid)
        } else {
            rest
        }
    }
}

/// The processes of a package: the marked ones, if it is among those named, and
/// then those that are told by their names.
pub open spec fn pids_of_package(
    procs: Seq<ScannedProc>,
    marked: Seq<Marked>,
    names: Seq<Seq<char>>,
    pkg: Seq<char>,
) -> Seq<i32> {
    (if names.contains(pkg) {
        marked_pids(marked, pkg)
    } else {
        seq![]
    }) + told_pids(procs, marked, names, pkg)
}

/// The processes that are listed under a package.
pub open spec fn listed(by_pkg: Map<Seq<char>, Vec<i32>>, pkg: Seq<char>) -> Seq<i32> {
    if by_pkg.contains_key(pkg) {
        by_pkg[pkg]@
    } else {
        seq![]
    }
}

/// Every package that is listed has a process.
pub open spec fn none_is_empty(by_pkg: Map<Seq<char>, Vec<i32>>) -> bool {
    forall|k: Seq<char>| #[trigger] by_pkg.contains_key(k) ==> by_pkg[k]@.len() > 0
}

fn pid_marked(marked: &Vec<Marked>, pid: i32) -> (r: bool)
    ensures
        r == is_marked(marked@, pid),
{
    let mut m: usize = 0;
    while m < marked.len()
        invariant
            m <= marked.len(),
            forall|k: int| 0 <= k < m ==> !(#[trigger] marked@[k]).pids@.contains(pid),
        decreases marked.len() - m,
    {
        let pids = &marked[m].pids;
        let mut j: usize = 0;
        while j < pids.len()
            invariant
                m < marked.len(),
                *pids == marked@[m as int].pids,
                j <= pids.len(),
                forall|k: int| 0 <= k < j ==> pids@[k] != pid,
            decreases pids.len() - j,
        {
            if pids[j] == pid {
                assert(marked@[m as int].pids@.contains(pid));
                return true;
            }
            j += 1;
        }
        m += 1;
    }
    false
}

/// Lists a process under a package.
fn put_under(by_pkg: &mut NameMap<Vec<i32>>, pkg: &str, pid: i32)
    requires
        old(by_pkg).wf(),
        none_is_empty(old(by_pkg)@),
    ensures
        final(by_pkg).wf(),
        none_is_empty(final(by_pkg)@),
        forall|k: Seq<char>| #[trigger]
            listed(final(by_pkg)@, k) == (if k == pkg@ {
                listed(old(by_pkg)@, k).push(pid)
            } else {
                listed(old(by_pkg)@, k)
            }),
{
    let mut list: Vec<i32> = match by_pkg.get(pkg) {
        Some(v) => {
            let c = v.clone();
            assert(c@ =~= v@);
            c
        },
        None => Vec::new(),
    };
    list.push(pid);
    by_pkg.insert(pkg, list);
}

/// All processes of packages with rules, by package: the marked ones under the
/// package that they are marked for, the others under the first one that their
/// name belongs to.
pub fn by_package(procs: &Vec<ScannedProc>, marked: &Vec<Marked>, pkgs: &NameSet) -> (r: NameMap<
    Vec<i32>,
>)
    ensures
        r.wf(),
        none_is_empty(r@),
        forall|k: Seq<char>| #[trigger]
            listed(r@, k) == pids_of_package(procs@, marked@, text::owned(pkgs.names@), k),
{
    let ghost names = text::owned(pkgs.names@);
    let mut r: NameMap<Vec<i32>> = NameMap::new();
    let mut m: usize = 0;
    proof {
        assert(marked@.take(0) =~= Seq::<Marked>::empty());
    }
    while m < marked.len()
        invariant
            m <= marked.len(),
            names == text::owned(pkgs.names@),
            r.wf(),
            none_is_empty(r@),
            forall|k: Seq<char>| #[trigger]
                listed(r@, k) == (if names.contains(k) {
                    marked_pids(marked@.take(m as int), k)
                } else {
                    seq![]
                }),
        decreases marked.len() - m,
    {
        let mk = &marked[m];
        let ghost before = r@;
        proof {
            let b = marked@.take(m + 1);
            assert(b.drop_last() =~= marked@.take(m as int));
            assert(b.last() == *mk);
            assert(pkgs@.contains(mk.pkg@) <==> names.contains(mk.pkg@));
        }
        if pkgs.contains(mk.pkg.as_str()) {
            let mut j: usize = 0;
            while j < mk.pids.len()
                invariant
                    j <= mk.pids.len(),
                    r.wf(),
                    none_is_empty(r@),
                    forall|k: Seq<char>| #[trigger]
                        listed(r@, k) == (if k == mk.pkg@ {
                            listed(before, k) + mk.pids@.take(j as int)
                        } else {
                            listed(before, k)
                        }),
                decreases mk.pids.len() - j,
            {
                let ghost mid = r@;
                let pid: i32 = mk.pids[j];
                put_under(&mut r, mk.pkg.as_str(), pid);
                proof {
                    let x = mk.pids@.take(j as int);
                    assert(mk.pids@.take(j + 1) =~= x.push(pid));
                    assert forall|k: Seq<char>| #[trigger]
                        listed(r@, k) == (if k == mk.pkg@ {
                            listed(before, k) + mk.pids@.take(j + 1)
                        } else {
                            listed(before, k)
                        }) by {
                        assert(listed(mid, k) == if k == mk.pkg@ {
                            listed(before, k) + x
                        } else {
                            listed(before, k)
                        });
                        assert((listed(before, k) + x).push(pid) =~= listed(before, k) + x.push(
                            pid,
                        ));
                    }
                }
                j += 1;
            }
            proof {
                assert(mk.pids@.take(j as int) =~= mk.pids@);
            }
        }
        m += 1;
    }
    proof {
        assert(marked@.take(m as int) =~= marked@);
        assert(procs@.take(0) =~= Seq::<ScannedProc>::empty());
        assert forall|k: Seq<char>| #[trigger] listed(r@, k) == pids_of_package(
            procs@.take(0),
            marked@,
            names,
            k,
        ) by {
            assert(pids_of_package(procs@.take(0), marked@, names, k) =~= listed(r@, k));
        }
    }
    let mut i: usize = 0;
    while i < procs.len()
        invariant
            i <= procs.len(),
            names == text::owned(pkgs.names@),
            r.wf(),
            none_is_empty(r@),
            forall|k: Seq<char>| #[trigger]
                listed(r@, k) == pids_of_package(procs@.take(i as int), marked@, names, k),
        decreases procs.len() - i,
    {
        let pr = &procs[i];
        let ghost before = r@;
        let mut owner: Option<String> = None;
        if pr.pid > 0 && !pid_marked(marked, pr.pid) {
            if let Some(c) = &pr.cmd {
                owner = proc_text::resolve_pkg(c.as_str(), pkgs);
            }
        }
        if let Some(o) = &owner {
            put_under(&mut r, o.as_str(), pr.pid);
        }
        proof {
            let a = procs@.take(i as int);
            let b = procs@.take(i + 1);
            assert(b.drop_last() =~= a);
            assert(b.last() == *pr);
            assert forall|k: Seq<char>| #[trigger] listed(r@, k) == pids_of_package(
                b,
                marked@,
                names,
                k,
            ) by {
                assert(listed(before, k) == pids_of_package(a, marked@, names, k));
                assert(pids_of_package(b, marked@, names, k) =~= listed(r@, k));
            }
        }
        i += 1;
    }
    proof {
        assert(procs@.take(i as int) =~= procs@);
    }
    r
}

/// The processes of a user are the new ones with that user number, and no
/// others.
pub proof fn processes_of_a_user(
    procs: Seq<ScannedProc>,
    n: nat,
    init: Set<i32>,
    uid: i32,
    pid: i32,
)
    requires
        n <= procs.len(),
    ensures
        pids_after(procs, n, init, uid).contains(pid) <==> exists|i: int|
            0 <= i < n && (#[trigger] procs[i]).pid == pid && pid > 0 && !init.contains(pid)
                && procs[i].uid == Some(uid),
    decreases n,
{
    if n > 0 {
        processes_of_a_user(procs, (n - 1) as nat, init, uid, pid);
        let a = pids_after(procs, (n - 1) as nat, init, uid);
        let b = pids_after(procs, n, init, uid);
        if a.contains(pid) {
            let k = a.index_of(pid);
            assert(b[k] == pid);
        }
        if b.contains(pid) {
            let k = b.index_of(pid);
            if k < a.len() {
                assert(a[k] == pid);
            } else {
                assert(procs[n - 1].pid == pid);
            }
        }
        if procs[n - 1].pid == pid && pid > 0 && !init.contains(pid) && procs[n - 1].uid == Some(
            uid,
        ) {
            assert(b[a.len() as int] == pid);
        }
    }
}

/// The user of a package is that of a new process with its name.
pub proof fn users_are_found_by_name(
    procs: Seq<ScannedProc>,
    init: Set<i32>,
    name: Seq<char>,
    i: int,
)
    requires
        0 <= i <= procs.len(),
    ensures
        match uid_of_name(procs, init, name, i) {
            Some(u) => exists|k: int|
                i <= k < procs.len() && (#[trigger] procs[k]).uid == Some(u) && procs[k].pid > 0
                    && !init.contains(procs[k].pid) && (procs[k].cmd matches Some(c) && c@ == name),
            None => forall|k: int|
                i <= k < procs.len() && (#[trigger] procs[k]).pid > 0 && !init.contains(
                    procs[k].pid,
                ) && (procs[k].cmd matches Some(c) && c@ == name) ==> procs[k].uid is None,
        },
    decreases procs.len() - i,
{
    if i < procs.len() {
        if is_new(procs[i], init) && is_named(procs[i], name) && procs[i].uid is Some {
            assert(procs[i].uid == uid_of_name(procs, init, name, i));
        } else {
            users_are_found_by_name(procs, init, name, i + 1);
            if let Some(u) = uid_of_name(procs, init, name, i + 1) {
                let k = choose|k: int|
                    i + 1 <= k < procs.len() && (#[trigger] procs[k]).uid == Some(u)
                        && procs[k].pid > 0 && !init.contains(procs[k].pid) && (
                    procs[k].cmd matches Some(c) && c@ == name);
                assert(procs[k].uid == Some(u));
            }
        }
    }
}

/// The processes that are told to be of a package by their names are those that
/// are not marked and that the package owns.
pub proof fn processes_are_told_by_their_names(
    procs: Seq<ScannedProc>,
    marked: Seq<Marked>,
    names: Seq<Seq<char>>,
    pkg: Seq<char>,
    pid: i32,
)
    ensures
        told_pids(procs, marked, names, pkg).contains(pid) <==> exists|i: int|
            0 <= i < procs.len() && (#[trigger] procs[i]).pid == pid && pid > 0 && !is_marked(
                marked,
                pid,
            ) && (procs[i].cmd matches Some(c) && proc_text::owner_from(c@, names, 0) == Some(pkg)),
    decreases procs.len(),
{
    if procs.len() > 0 {
        let init = procs.drop_last();
        let last = procs.len() - 1;
        processes_are_told_by_their_names(init, marked, names, pkg, pid);
        let a = told_pids(init, marked, names, pkg);
        let b = told_pids(procs, marked, names, pkg);
        if a.contains(pid) {
            let k = a.index_of(pid);
            assert(b[k] == pid);
            let i = choose|i: int|
                0 <= i < init.len() && (#[trigger] init[i]).pid == pid && pid > 0 && !is_marked(
                    marked,
                    pid,
                ) && (init[i].cmd matches Some(c) && proc_text::owner_from(c@, names, 0) == Some(
                    pkg,
                ));
            assert(procs[i] == init[i]);
        }
        if b.contains(pid) {
            let k = b.index_of(pid);
            if k < a.len() {
                assert(a[k] == pid);
            } else {
                assert(procs[last].pid == pid);
            }
        }
        if exists|i: int|
            0 <= i < procs.len() && (#[trigger] procs[i]).pid == pid && pid > 0 && !is_marked(
                marked,
                pid,
            ) && (procs[i].cmd matches Some(c) && proc_text::owner_from(c@, names, 0) == Some(
                pkg,
            )) {
            let i = choose|i: int|
                0 <= i < procs.len() && (#[trigger] procs[i]).pid == pid && pid > 0 && !is_marked(
                    marked,
                    pid,
                ) && (procs[i].cmd matches Some(c) && proc_text::owner_from(c@, names, 0) == Some(
                    pkg,
                ));
            if i < last {
                assert(init[i] == procs[i]);
            } else {
                assert(b[a.len() as int] == pid);
            }
        }
    }
}

/// A process that is marked for a package is listed under it.
pub proof fn marked_processes_are_listed(
    procs: Seq<ScannedProc>,
    marked: Seq<Marked>,
    names: Seq<Seq<char>>,
    m: int,
    pid: i32,
)
    requires
        0 <= m < marked.len(),
        marked[m].pids@.contains(pid),
        names.contains(marked[m].pkg@),
    ensures
        pids_of_package(procs, marked, names, marked[m].pkg@).contains(pid),
{
    let pkg = marked[m].pkg@;
    lemma_marked(marked, m, pid);
    let a = marked_pids(marked, pkg);
    let k = a.index_of(pid);
    assert(a[k] == pid);
    assert(pids_of_package(procs, marked, names, pkg)[k] == pid);
}

proof fn lemma_marked(marked: Seq<Marked>, m: int, pid: i32)
    requires
        0 <= m < marked.len(),
        marked[m].pids@.contains(pid),
    ensures
        marked_pids(marked, marked[m].pkg@).contains(pid),
    decreases marked.len(),
{
    let init = marked.drop_last();
    let pkg = marked[m].pkg@;
    let all = marked_pids(marked, pkg);
    let rest = marked_pids(init, pkg);
    if m < init.len() {
        assert(init[m] == marked[m]);
        lemma_marked(init, m, pid);
        let k = rest.index_of(pid);
        assert(rest[k] == pid);
        assert(all[k] == pid);
    } else {
        let k = marked[m].pids@.index_of(pid);
        assert(marked[m].pids@[k] == pid);
        assert(all[rest.len() + k] == pid);
    }
}

} // verus!
