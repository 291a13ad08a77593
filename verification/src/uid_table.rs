//! Which application a user number belongs to, and what is done for it.
use vstd::prelude::*;

use crate::config;
use crate::config::AppConfig;
use crate::http;
use crate::names::{NameMap, NameSet};
use crate::number;
use crate::refresh_lines::DEFAULT_REFRESH_PACKAGE;
use crate::text;
use crate::waylay;

verus! {

broadcast use vstd::string::group_string_axioms;

/// An application that something is done for.
pub struct UidEntry {
    pub pkg: String,
    /// It has CPU rules.
    pub cpu: bool,
    /// It has a refresh rate.
    pub rfr: bool,
}

/// The contents of an entry.
#[verifier::ext_equal]
pub ghost struct EntryView {
    pub pkg: Seq<char>,
    pub cpu: bool,
    pub rfr: bool,
}

impl View for UidEntry {
    type V = EntryView;

    open spec fn view(&self) -> EntryView {
        EntryView { pkg: self.pkg@, cpu: self.cpu, rfr: self.rfr }
    }
}

/// The applications by user number.
pub struct UidTable {
    pub rows: Vec<(i32, UidEntry)>,
}

impl UidTable {
    /// The user numbers, in the order in which they came.
    pub open spec fn uids(self) -> Seq<i32> {
        self.rows@.map_values(|r: (i32, UidEntry)| r.0)
    }

    /// No user number occurs twice.
    pub open spec fn wf(self) -> bool {
        self.uids().no_duplicates()
    }
}

impl View for UidTable {
    type V = Map<i32, EntryView>;

    open spec fn view(&self) -> Map<i32, EntryView> {
        Map::new(
            |u: i32| self.uids().contains(u),
            |u: i32| self.rows@[self.uids().index_of(u)].1@,
        )
    }
}

impl UidTable {
    proof fn lemma_row(self, i: int)
        requires
            self.wf(),
            0 <= i < self.rows@.len(),
        ensures
            self.uids()[i] == self.rows@[i].0,
            self@.contains_key(self.rows@[i].0),
            self@[self.rows@[i].0] == self.rows@[i].1@,
    {
        let u = self.rows@[i].0;
        assert(self.uids()[i] == u);
        assert(self.uids().contains(u));
        assert(self.uids()[self.uids().index_of(u)] == u);
        assert(self.uids().index_of(u) == i);
    }

    /// The empty table.
    pub fn new() -> (r: UidTable)
        ensures
            r.wf(),
            r@ == Map::<i32, EntryView>::empty(),
    {
        let r = UidTable { rows: Vec::new() };
        assert(r@ =~= Map::<i32, EntryView>::empty());
        r
    }

    fn position(&self, uid: i32) -> (r: Option<usize>)
        ensures
            match r {
                Some(i) => i < self.rows@.len() && self.uids()[i as int] == uid,
                None => !self.uids().contains(uid),
            },
    {
        let mut i: usize = 0;
        while i < self.rows.len()
            invariant
                i <= self.rows.len(),
                forall|j: int| 0 <= j < i ==> self.uids()[j] != uid,
            decreases self.rows.len() - i,
        {
            if self.rows[i].0 == uid {
                return Some(i);
            }
            i += 1;
        }
        None
    }

    /// The application with that user number.
    pub fn get(&self, uid: i32) -> (r: Option<&UidEntry>)
        requires
            self.wf(),
        ensures
            match r {
                Some(e) => self@.contains_key(uid) && e@ == self@[uid],
                None => !self@.contains_key(uid),
            },
    {
        match self.position(uid) {
            Some(i) => {
                proof {
                    self.lemma_row(i as int);
                }
                Some(&self.rows[i].1)
            },
            None => None,
        }
    }

    /// Gives a user number an entry, in place of the one it had.
    pub fn insert(&mut self, uid: i32, e: UidEntry)
        requires
            old(self).wf(),
        ensures
            final(self).wf(),
            final(self)@ == old(self)@.insert(uid, e@),
    {
        let ghost before = *self;
        match self.position(uid) {
            Some(i) => {
                self.rows.set(i, (uid, e));
                proof {
                    let now = *self;
                    assert(now.uids() =~= before.uids());
                    assert forall|u: i32| now.uids().contains(u) implies now@[u]
                        == before@.insert(uid, e@)[u] by {
                        let j = before.uids().index_of(u);
                        assert(before.uids()[j] == u);
                        now.lemma_row(j);
                        before.lemma_row(j);
                        if j != i {
                            assert(u != uid);
                        }
                    }
                    assert(now@ =~= before@.insert(uid, e@));
                }
            },
            None => {
                self.rows.push((uid, e));
                proof {
                    let now = *self;
                    assert(now.uids() =~= before.uids().push(uid));
                    assert forall|i: int, j: int|
                        0 <= i < now.uids().len() && 0 <= j < now.uids().len() && i
                            != j implies now.uids()[i] != now.uids()[j] by {
                        if i == before.uids().len() {
                            assert(before.uids().contains(before.uids()[j]));
                        } else if j == before.uids().len() {
                            assert(before.uids().contains(before.uids()[i]));
                        }
                    }
                    let last = before.rows@.len() as int;
                    now.lemma_row(last);
                    assert forall|u: i32| now.uids().contains(u) <==> (before.uids().contains(u) || u
                        == uid) by {
                        if before.uids().contains(u) {
                            let j = before.uids().index_of(u);
                            assert(now.uids()[j] == u);
                        }
                        assert(now.uids()[last] == uid);
                    }
                    assert forall|u: i32| now.uids().contains(u) implies now@[u]
                        == before@.insert(uid, e@)[u] by {
                        if u != uid {
                            let j = before.uids().index_of(u);
                            assert(before.uids()[j] == u);
                            before.lemma_row(j);
                            assert(now.rows@[j] == before.rows@[j]);
                            now.lemma_row(j);
                        }
                    }
                    assert(now@ =~= before@.insert(uid, e@));
                }
            },
        }
    }
}

/// The packages with CPU rules, and those with a refresh rate.
#[verifier::ext_equal]
pub ghost struct PkgSets {
    pub cpu: Set<Seq<char>>,
    pub rfr: Set<Seq<char>>,
}

impl PkgSets {
    /// Something is done for the package.
    pub open spec fn wants(self, p: Seq<char>) -> bool {
        self.cpu.contains(p) || self.rfr.contains(p)
    }

    /// The entry of a package.
    pub open spec fn entry(self, p: Seq<char>) -> EntryView {
        EntryView { pkg: p, cpu: self.cpu.contains(p), rfr: self.rfr.contains(p) }
    }
}

/// The packages that a configuration speaks of; the home screen always has a
/// refresh rate.
pub open spec fn sets_of(cfg: AppConfig) -> PkgSets {
    PkgSets {
        cpu: config::rule_pkgs(config::rule_views(cfg.rules@)),
        rfr: cfg.app_refresh_configs@.dom().insert(DEFAULT_REFRESH_PACKAGE@),
    }
}

/// The packages with CPU rules, and those with a refresh rate.
pub fn cfg_pkg_sets(cfg: &AppConfig) -> (r: (NameSet, NameSet))
    requires
        cfg.wf(),
    ensures
        r.0.wf(),
        r.1.wf(),
        r.0@ == sets_of(*cfg).cpu,
        r.1@ == sets_of(*cfg).rfr,
{
    let mut cpu = NameSet::new();
    let mut i: usize = 0;
    let ghost all = text::owned(cfg.pkgs.names@);
    assert(cpu@ =~= all.take(0).to_set());
    while i < cfg.pkgs.names.len()
        invariant
            i <= cfg.pkgs.names.len(),
            cpu.wf(),
            all == text::owned(cfg.pkgs.names@),
            cpu@ == all.take(i as int).to_set(),
        decreases cfg.pkgs.names.len() - i,
    {
        cpu.insert(cfg.pkgs.names[i].as_str());
        proof {
            lemma_taken(all, i as int);
        }
        i += 1;
    }
    assert(all.take(i as int) =~= all);
    let mut rfr = NameSet::new();
    let mut k: usize = 0;
    let apps = &cfg.app_refresh_configs;
    let ghost keys = apps.keys();
    assert(rfr@ =~= keys.take(0).to_set());
    while k < apps.entries.len()
        invariant
            k <= apps.entries.len(),
            rfr.wf(),
            keys == apps.keys(),
            rfr@ == keys.take(k as int).to_set(),
        decreases apps.entries.len() - k,
    {
        rfr.insert(apps.entries[k].0.as_str());
        proof {
            lemma_taken(keys, k as int);
        }
        k += 1;
    }
    assert(keys.take(k as int) =~= keys);
    assert(rfr@ =~= apps@.dom());
    rfr.insert(DEFAULT_REFRESH_PACKAGE);
    (cpu, rfr)
}

/// One name more.
proof fn lemma_taken(all: Seq<Seq<char>>, i: int)
    requires
        0 <= i < all.len(),
    ensures
        all.take(i + 1).to_set() == all.take(i).to_set().insert(all[i]),
{
    let a = all.take(i);
    let b = all.take(i + 1);
    assert forall|n: Seq<char>| b.contains(n) <==> (a.contains(n) || n == all[i]) by {
        if a.contains(n) {
            let k = a.index_of(n);
            assert(b[k] == n);
        }
        assert(b[i] == all[i]);
    }
    assert(b.to_set() =~= a.to_set().insert(all[i]));
}

/// The two tables: applications by user number, and user numbers by package.
#[verifier::ext_equal]
pub ghost struct TablesView {
    pub by_uid: Map<i32, EntryView>,
    pub by_pkg: Map<Seq<char>, i32>,
}

/// The smallest user number of a second user's application.
pub const SECOND_USER: i32 = 100000;

/// The line of the package list is for an application of the first user that
/// something is done for.
pub open spec fn listed_entry(line: Seq<char>, sets: PkgSets) -> Option<(int, Seq<char>)> {
    match waylay::listed_package(line) {
        Some((uid, p)) => if uid < SECOND_USER && sets.wants(p) {
            Some((uid, p))
        } else {
            None
        },
        None => None,
    }
}

/// The tables after the first `n` lines: what came first stays.
pub open spec fn tables_after(lines: Seq<Seq<char>>, n: nat, sets: PkgSets) -> TablesView
    decreases n,
{
    if n == 0 {
        TablesView { by_uid: Map::empty(), by_pkg: Map::empty() }
    } else {
        let t = tables_after(lines, (n - 1) as nat, sets);
        match listed_entry(lines[n - 1], sets) {
            Some((uid, p)) => TablesView {
                by_uid: if t.by_uid.contains_key(uid as i32) {
                    t.by_uid
                } else {
                    t.by_uid.insert(uid as i32, sets.entry(p))
                },
                by_pkg: if t.by_pkg.contains_key(p) {
                    t.by_pkg
                } else {
                    t.by_pkg.insert(p, uid as i32)
                },
            },
            None => t,
        }
    }
}

/// The tables of a package list; without a list they are empty.
pub open spec fn tables_of(list: Option<&str>, sets: PkgSets) -> TablesView {
    match list {
        Some(t) => tables_after(text::line_seq(t@), text::line_seq(t@).len(), sets),
        None => TablesView { by_uid: Map::empty(), by_pkg: Map::empty() },
    }
}

/// Builds the two tables from the package list.
pub fn build_uid_tables(cfg: &AppConfig, list: Option<&str>) -> (r: (UidTable, NameMap<i32>))
    requires
        cfg.wf(),
    ensures
        r.0.wf(),
        r.1.wf(),
        r.0@ == tables_of(list, sets_of(*cfg)).by_uid,
        r.1@ == tables_of(list, sets_of(*cfg)).by_pkg,
{
    let (cpu, rfr) = cfg_pkg_sets(cfg);
    let ghost sets = sets_of(*cfg);
    let mut fwd = UidTable::new();
    let mut rev: NameMap<i32> = NameMap::new();
    if let Some(t) = list {
        let lines = text::lines(t);
        let ghost all = text::line_seq(t@);
        let mut i: usize = 0;
        while i < lines.len()
            invariant
                i <= lines.len(),
                text::views(lines@) == all,
                fwd.wf(),
                rev.wf(),
                cpu@ == sets.cpu,
                rfr@ == sets.rfr,
                fwd@ == tables_after(all, i as nat, sets).by_uid,
                rev@ == tables_after(all, i as nat, sets).by_pkg,
            decreases lines.len() - i,
        {
            let line = lines[i];
            assert(line@ == all[i as int]);
            if let Some((uid, p)) = waylay::parse_package_line(line) {
                if uid < SECOND_USER {
                    let c: bool = cpu.contains(p);
                    let f: bool = rfr.contains(p);
                    if c || f {
                        if fwd.get(uid).is_none() {
                            fwd.insert(uid, UidEntry { pkg: p.to_owned(), cpu: c, rfr: f });
                        }
                        if !rev.contains_key(p) {
                            rev.insert(p, uid);
                        }
                    }
                }
            }
            i += 1;
        }
    }
    (fwd, rev)
}

/// The user numbers of the packages with CPU rules, as far as they are known.
pub open spec fn known_uids(pkgs: Set<Seq<char>>, by_pkg: Map<Seq<char>, i32>) -> Map<
    Seq<char>,
    i32,
> {
    by_pkg.restrict(pkgs)
}

/// The user numbers of the packages with CPU rules, as far as they are known.
pub fn cpu_pkg_uids(cfg: &AppConfig, pkg_uid: &NameMap<i32>) -> (r: NameMap<i32>)
    requires
        cfg.wf(),
        pkg_uid.wf(),
    ensures
        r.wf(),
        r@ == known_uids(sets_of(*cfg).cpu, pkg_uid@),
{
    let mut r: NameMap<i32> = NameMap::new();
    let ghost all = text::owned(cfg.pkgs.names@);
    let mut i: usize = 0;
    assert(r@ =~= known_uids(all.take(0).to_set(), pkg_uid@));
    while i < cfg.pkgs.names.len()
        invariant
            i <= cfg.pkgs.names.len(),
            r.wf(),
            pkg_uid.wf(),
            all == text::owned(cfg.pkgs.names@),
            r@ == known_uids(all.take(i as int).to_set(), pkg_uid@),
        decreases cfg.pkgs.names.len() - i,
    {
        let p = &cfg.pkgs.names[i];
        let ghost before = r@;
        if let Some(u) = pkg_uid.get(p.as_str()) {
            r.insert(p.as_str(), *u);
        }
        proof {
            lemma_taken(all, i as int);
            assert(all[i as int] == p@);
            assert(r@ =~= known_uids(all.take(i + 1).to_set(), pkg_uid@));
        }
        i += 1;
    }
    assert(all.take(i as int) =~= all);
    r
}

/// The line of the package list is that of the package.
pub open spec fn is_line_of(line: Seq<char>, pkg: Seq<char>) -> bool {
    text::words(line).len() >= 2 && text::words(line)[0] == pkg
}

/// The user number in the first line of a package, from line `i` on.
pub open spec fn uid_from(lines: Seq<Seq<char>>, pkg: Seq<char>, i: int) -> Option<int>
    decreases lines.len() - i,
{
    if i >= lines.len() {
        None
    } else if is_line_of(lines[i], pkg) {
        number::signed(text::words(lines[i])[1], i32::MIN as int, i32::MAX as int)
    } else {
        uid_from(lines, pkg, i + 1)
    }
}

/// The user number of a package in the package list.
pub open spec fn uid_in(list: Option<&str>, pkg: Seq<char>) -> Option<int> {
    match list {
        Some(t) => uid_from(text::line_seq(t@), pkg, 0),
        None => None,
    }
}

/// Finds the user number of a package in the package list.
pub fn lookup_uid_in_packages_list(pkg: &str, list: Option<&str>) -> (r: Option<i32>)
    ensures
        match r {
            Some(u) => uid_in(list, pkg@) == Some(u as int),
            None => uid_in(list, pkg@) is None,
        },
{
    let t: &str = match list {
        Some(t) => t,
        None => return None,
    };
    let lines = text::lines(t);
    let ghost all = text::line_seq(t@);
    let mut i: usize = 0;
    while i < lines.len()
        invariant
            i <= lines.len(),
            text::views(lines@) == all,
            list == Some(t),
            all == text::line_seq(t@),
            uid_from(all, pkg@, 0) == uid_from(all, pkg@, i as int),
        decreases lines.len() - i,
    {
        let line = lines[i];
        assert(line@ == all[i as int]);
        let ws = text::split_whitespace(line);
        let ghost vs = text::words(line@);
        if ws.len() >= 2 {
            assert(ws@[0]@ == vs[0]);
            assert(ws@[1]@ == vs[1]);
            if text::same(ws[0], pkg) {
                return number::parse_i32(ws[1]);
            }
        }
        i += 1;
    }
    None
}

/// Some application in the table has that package.
pub open spec fn has_pkg(m: Map<i32, EntryView>, p: Seq<char>) -> bool {
    exists|u: i32| #[trigger] m.contains_key(u) && m[u].pkg == p
}

/// What is left of a table once the packages have changed.
pub open spec fn kept(m: Map<i32, EntryView>, sets: PkgSets) -> Map<i32, EntryView> {
    Map::new(
        |u: i32| m.contains_key(u) && sets.wants(m[u].pkg),
        |u: i32| sets.entry(m[u].pkg),
    )
}

/// The package is new, and the package list has it under that user number.
pub open spec fn is_newcomer(
    m: Map<i32, EntryView>,
    sets: PkgSets,
    list: Option<&str>,
    p: Seq<char>,
    u: i32,
) -> bool {
    sets.wants(p) && !has_pkg(kept(m, sets), p) && uid_in(list, p) == Some(u as int)
}

/// The entry under a user number after the packages have changed: that of a new
/// package with that number, if there is one (of several, any); else what is
/// left of the old entry.
pub open spec fn rebuilt_at(
    m: Map<i32, EntryView>,
    now: Map<i32, EntryView>,
    sets: PkgSets,
    list: Option<&str>,
    u: i32,
) -> bool {
    if exists|p: Seq<char>| #[trigger] is_newcomer(m, sets, list, p, u) {
        now.contains_key(u) && is_newcomer(m, sets, list, now[u].pkg, u) && now[u] == sets.entry(
            now[u].pkg,
        )
    } else {
        now.contains_key(u) == kept(m, sets).contains_key(u) && (now.contains_key(u) ==> now[u]
            == kept(m, sets)[u])
    }
}

/// The user number of a package after the table has changed: one under which
/// the table has it; else the old one, if something is still done for it.
pub open spec fn renumbered(
    rev: Map<Seq<char>, i32>,
    now: Map<Seq<char>, i32>,
    table: Map<i32, EntryView>,
    sets: PkgSets,
    p: Seq<char>,
) -> bool {
    if has_pkg(table, p) {
        now.contains_key(p) && table.contains_key(now[p]) && table[now[p]].pkg == p
    } else {
        now.contains_key(p) == (rev.contains_key(p) && sets.wants(p)) && (now.contains_key(p)
            ==> now[p] == rev[p])
    }
}

/// The rows of a table whose package something is still done for.
fn keep_rows(table: &UidTable, cpu: &NameSet, rfr: &NameSet) -> (r: UidTable)
    requires
        table.wf(),
    ensures
        r.wf(),
        r@ == kept(table@, (PkgSets { cpu: cpu@, rfr: rfr@ })),
{
    let ghost sets = PkgSets { cpu: cpu@, rfr: rfr@ };
    let mut r = UidTable::new();
    let mut i: usize = 0;
    while i < table.rows.len()
        invariant
            i <= table.rows.len(),
            table.wf(),
            r.wf(),
            sets == (PkgSets { cpu: cpu@, rfr: rfr@ }),
            forall|u: i32| #[trigger]
                r@.contains_key(u) <==> table.uids().take(i as int).contains(u) && sets.wants(
                    table@[u].pkg,
                ),
            forall|u: i32| #[trigger] r@.contains_key(u) ==> r@[u] == sets.entry(table@[u].pkg),
        decreases table.rows.len() - i,
    {
        let ghost before = r@;
        let uid: i32 = table.rows[i].0;
        let pkg = &table.rows[i].1.pkg;
        let c: bool = cpu.contains(pkg.as_str());
        let f: bool = rfr.contains(pkg.as_str());
        if c || f {
            r.insert(uid, UidEntry { pkg: pkg.clone(), cpu: c, rfr: f });
        }
        proof {
            table.lemma_row(i as int);
            let a = table.uids().take(i as int);
            let b = table.uids().take(i + 1);
            assert forall|u: i32| #[trigger]
                r@.contains_key(u) <==> b.contains(u) && sets.wants(table@[u].pkg) by {
                if a.contains(u) {
                    let k = a.index_of(u);
                    assert(b[k] == u);
                }
                if b.contains(u) {
                    let k = b.index_of(u);
                    assert(k == i || a[k] == u);
                }
                assert(b[i as int] == uid);
                assert(before.contains_key(u) <==> a.contains(u) && sets.wants(table@[u].pkg));
            }
            assert forall|u: i32| #[trigger] r@.contains_key(u) implies r@[u] == sets.entry(
                table@[u].pkg,
            ) by {
                if u != uid {
                    assert(before.contains_key(u));
                }
            }
        }
        i += 1;
    }
    proof {
        assert(table.uids().take(i as int) =~= table.uids());
        assert(r@ =~= kept(table@, sets));
    }
    r
}

/// The packages in a table.
fn table_pkgs(table: &UidTable) -> (r: NameSet)
    requires
        table.wf(),
    ensures
        r.wf(),
        forall|p: Seq<char>| #[trigger] r@.contains(p) <==> has_pkg(table@, p),
{
    let mut r = NameSet::new();
    let mut i: usize = 0;
    while i < table.rows.len()
        invariant
            i <= table.rows.len(),
            r.wf(),
            forall|p: Seq<char>| #[trigger]
                r@.contains(p) <==> exists|k: int| 0 <= k < i && (#[trigger] table.rows@[k]).1.pkg@ == p,
        decreases table.rows.len() - i,
    {
        let ghost before = r@;
        r.insert(table.rows[i].1.pkg.as_str());
        proof {
            let q = table.rows@[i as int].1.pkg@;
            assert forall|p: Seq<char>| #[trigger]
                r@.contains(p) <==> exists|k: int|
                    0 <= k < i + 1 && (#[trigger] table.rows@[k]).1.pkg@ == p by {
                assert(before.contains(p) <==> exists|k: int|
                    0 <= k < i && (#[trigger] table.rows@[k]).1.pkg@ == p);
                if p == q {
                    assert(table.rows@[i as int].1.pkg@ == p);
                }
            }
        }
        i += 1;
    }
    proof {
        assert forall|p: Seq<char>| #[trigger] r@.contains(p) <==> has_pkg(table@, p) by {
            if r@.contains(p) {
                let k = choose|k: int| 0 <= k < i && (#[trigger] table.rows@[k]).1.pkg@ == p;
                table.lemma_row(k);
                assert(table@.contains_key(table.rows@[k].0));
            }
            if has_pkg(table@, p) {
                let u = choose|u: i32| #[trigger] table@.contains_key(u) && table@[u].pkg == p;
                let k = table.uids().index_of(u);
                assert(table.uids()[k] == u);
                table.lemma_row(k);
                assert(table.rows@[k].1.pkg@ == p);
            }
        }
    }
    r
}

/// A newcomer among some of the packages.
spec fn is_newcomer_of(
    m: Map<i32, EntryView>,
    sets: PkgSets,
    list: Option<&str>,
    done: Set<Seq<char>>,
    p: Seq<char>,
    u: i32,
) -> bool {
    done.contains(p) && is_newcomer(m, sets, list, p, u)
}

spec fn rebuilt_upto(
    m: Map<i32, EntryView>,
    now: Map<i32, EntryView>,
    sets: PkgSets,
    list: Option<&str>,
    done: Set<Seq<char>>,
    u: i32,
) -> bool {
    if exists|p: Seq<char>| #[trigger] is_newcomer_of(m, sets, list, done, p, u) {
        now.contains_key(u) && is_newcomer(m, sets, list, now[u].pkg, u) && now[u] == sets.entry(
            now[u].pkg,
        )
    } else {
        now.contains_key(u) == kept(m, sets).contains_key(u) && (now.contains_key(u) ==> now[u]
            == kept(m, sets)[u])
    }
}

/// Adds the new packages among the names.
fn add_newcomers(
    table: &mut UidTable,
    names: &NameSet,
    known: &NameSet,
    cpu: &NameSet,
    rfr: &NameSet,
    list: Option<&str>,
    Ghost(m): Ghost<Map<i32, EntryView>>,
    Ghost(done): Ghost<Set<Seq<char>>>,
)
    requires
        old(table).wf(),
        ({
            let sets = PkgSets { cpu: cpu@, rfr: rfr@ };
            &&& forall|p: Seq<char>| #[trigger] known@.contains(p) <==> has_pkg(kept(m, sets), p)
            &&& forall|p: Seq<char>| #[trigger] names@.contains(p) ==> sets.wants(p)
            &&& forall|u: i32| #[trigger] rebuilt_upto(m, old(table)@, sets, list, done, u)
        }),
    ensures
        final(table).wf(),
        ({
            let sets = PkgSets { cpu: cpu@, rfr: rfr@ };
            forall|u: i32| #[trigger]
                rebuilt_upto(m, final(table)@, sets, list, done.union(names@), u)
        }),
{
    let ghost sets = PkgSets { cpu: cpu@, rfr: rfr@ };
    let ghost all = text::owned(names.names@);
    let mut i: usize = 0;
    assert(done.union(all.take(0).to_set()) =~= done);
    while i < names.names.len()
        invariant
            i <= names.names.len(),
            table.wf(),
            sets == (PkgSets { cpu: cpu@, rfr: rfr@ }),
            all == text::owned(names.names@),
            names@ == all.to_set(),
            forall|p: Seq<char>| #[trigger] known@.contains(p) <==> has_pkg(kept(m, sets), p),
            forall|p: Seq<char>| #[trigger] names@.contains(p) ==> sets.wants(p),
            forall|u: i32| #[trigger]
                rebuilt_upto(m, table@, sets, list, done.union(all.take(i as int).to_set()), u),
        decreases names.names.len() - i,
    {
        let name = names.names[i].as_str();
        let ghost before = table@;
        let ghost d1 = done.union(all.take(i as int).to_set());
        let ghost d2 = done.union(all.take(i + 1).to_set());
        assert(all[i as int] == name@);
        assert(names@.contains(name@));
        proof {
            lemma_taken(all, i as int);
            assert(d2 =~= d1.insert(name@));
        }
        let found: Option<i32> = if known.contains(name) {
            None
        } else {
            lookup_uid_in_packages_list(name, list)
        };
        if let Some(uid) = found {
            let c: bool = cpu.contains(name);
            let f: bool = rfr.contains(name);
            table.insert(uid, UidEntry { pkg: name.to_owned(), cpu: c, rfr: f });
            assert(is_newcomer(m, sets, list, name@, uid));
        }
        proof {
            assert forall|u: i32| #[trigger] rebuilt_upto(m, table@, sets, list, d2, u) by {
                assert(rebuilt_upto(m, before, sets, list, d1, u));
                if found == Some(u) {
                    assert(is_newcomer_of(m, sets, list, d2, name@, u));
                } else {
                    assert(table@.contains_key(u) == before.contains_key(u));
                    assert(!is_newcomer(m, sets, list, name@, u));
                    if exists|p: Seq<char>| #[trigger] is_newcomer_of(m, sets, list, d2, p, u) {
                        let p = choose|p: Seq<char>| #[trigger]
                            is_newcomer_of(m, sets, list, d2, p, u);
                        assert(is_newcomer_of(m, sets, list, d1, p, u));
                    }
                    if exists|p: Seq<char>| #[trigger] is_newcomer_of(m, sets, list, d1, p, u) {
                        let p = choose|p: Seq<char>| #[trigger]
                            is_newcomer_of(m, sets, list, d1, p, u);
                        assert(is_newcomer_of(m, sets, list, d2, p, u));
                    }
                }
            }
        }
        i += 1;
    }
    assert(all.take(i as int) =~= all);
}

/// The user numbers by package once the table has changed.
fn renumber(pkg_uid: &NameMap<i32>, table: &UidTable, cpu: &NameSet, rfr: &NameSet) -> (r: NameMap<
    i32,
>)
    requires
        pkg_uid.wf(),
        table.wf(),
    ensures
        r.wf(),
        forall|p: Seq<char>| #[trigger]
            renumbered(pkg_uid@, r@, table@, (PkgSets { cpu: cpu@, rfr: rfr@ }), p),
{
    let ghost sets = PkgSets { cpu: cpu@, rfr: rfr@ };
    let mut r: NameMap<i32> = NameMap::new();
    let mut i: usize = 0;
    while i < pkg_uid.entries.len()
        invariant
            i <= pkg_uid.entries.len(),
            pkg_uid.wf(),
            r.wf(),
            sets == (PkgSets { cpu: cpu@, rfr: rfr@ }),
            forall|p: Seq<char>| #[trigger]
                r@.contains_key(p) <==> pkg_uid.keys().take(i as int).contains(p) && sets.wants(p),
            forall|p: Seq<char>| #[trigger] r@.contains_key(p) ==> r@[p] == pkg_uid@[p],
        decreases pkg_uid.entries.len() - i,
    {
        let ghost before = r@;
        let name = pkg_uid.entries[i].0.as_str();
        let uid: i32 = pkg_uid.entries[i].1;
        if cpu.contains(name) || rfr.contains(name) {
            r.insert(name, uid);
        }
        proof {
            pkg_uid.lemma_entry(i as int);
            let a = pkg_uid.keys().take(i as int);
            let b = pkg_uid.keys().take(i + 1);
            assert forall|p: Seq<char>| #[trigger]
                r@.contains_key(p) <==> b.contains(p) && sets.wants(p) by {
                if a.contains(p) {
                    let k = a.index_of(p);
                    assert(b[k] == p);
                }
                if b.contains(p) {
                    let k = b.index_of(p);
                    assert(k == i || a[k] == p);
                }
                assert(b[i as int] == name@);
                assert(before.contains_key(p) <==> a.contains(p) && sets.wants(p));
            }
            assert forall|p: Seq<char>| #[trigger] r@.contains_key(p) implies r@[p] == pkg_uid@[p] by {
                if p != name@ {
                    assert(before.contains_key(p));
                }
            }
        }
        i += 1;
    }
    proof {
        assert(pkg_uid.keys().take(i as int) =~= pkg_uid.keys());
    }
    let ghost left = r@;
    let mut k: usize = 0;
    while k < table.rows.len()
        invariant
            k <= table.rows.len(),
            table.wf(),
            r.wf(),
            forall|p: Seq<char>| #[trigger]
                r@.contains_key(p) <==> left.contains_key(p) || (exists|j: int|
                    0 <= j < k && (#[trigger] table.rows@[j]).1.pkg@ == p),
            forall|p: Seq<char>| #[trigger]
                r@.contains_key(p) ==> if exists|j: int|
                    0 <= j < k && (#[trigger] table.rows@[j]).1.pkg@ == p {
                    table@.contains_key(r@[p]) && table@[r@[p]].pkg == p
                } else {
                    r@[p] == left[p]
                },
        decreases table.rows.len() - k,
    {
        let ghost before = r@;
        let uid: i32 = table.rows[k].0;
        let name = table.rows[k].1.pkg.as_str();
        r.insert(name, uid);
        proof {
            table.lemma_row(k as int);
            assert forall|p: Seq<char>| #[trigger]
                r@.contains_key(p) <==> left.contains_key(p) || (exists|j: int|
                    0 <= j < k + 1 && (#[trigger] table.rows@[j]).1.pkg@ == p) by {
                assert(before.contains_key(p) <==> left.contains_key(p) || (exists|j: int|
                    0 <= j < k && (#[trigger] table.rows@[j]).1.pkg@ == p));
                if p == name@ {
                    assert(table.rows@[k as int].1.pkg@ == p);
                }
            }
            assert forall|p: Seq<char>| #[trigger] r@.contains_key(p) implies if exists|j: int|
                0 <= j < k + 1 && (#[trigger] table.rows@[j]).1.pkg@ == p {
                table@.contains_key(r@[p]) && table@[r@[p]].pkg == p
            } else {
                r@[p] == left[p]
            } by {
                if p == name@ {
                    assert(table.rows@[k as int].1.pkg@ == p);
                } else {
                    assert(before.contains_key(p));
                    assert(r@[p] == before[p]);
                }
            }
        }
        k += 1;
    }
    proof {
        assert forall|p: Seq<char>| #[trigger] renumbered(pkg_uid@, r@, table@, sets, p) by {
            if has_pkg(table@, p) {
                let u = choose|u: i32| #[trigger] table@.contains_key(u) && table@[u].pkg == p;
                let j = table.uids().index_of(u);
                assert(table.uids()[j] == u);
                table.lemma_row(j);
                assert(table.rows@[j].1.pkg@ == p);
                assert(r@.contains_key(p));
            } else {
                if exists|j: int| 0 <= j < k && (#[trigger] table.rows@[j]).1.pkg@ == p {
                    let j = choose|j: int| 0 <= j < k && (#[trigger] table.rows@[j]).1.pkg@ == p;
                    table.lemma_row(j);
                    assert(table@.contains_key(table.rows@[j].0));
                }
                assert(left.contains_key(p) <==> pkg_uid.keys().contains(p) && sets.wants(p));
                assert(r@.contains_key(p) <==> left.contains_key(p));
            }
        }
    }
    r
}

/// The tables that the main loop keeps.
pub struct Tables {
    pub uid_map: UidTable,
    pub pkg_uid: NameMap<i32>,
    pub cpu_pkgs: NameSet,
    pub rfr_pkgs: NameSet,
}

impl Tables {
    /// Nothing occurs twice.
    pub open spec fn wf(self) -> bool {
        &&& self.uid_map.wf()
        &&& self.pkg_uid.wf()
        &&& self.cpu_pkgs.wf()
        &&& self.rfr_pkgs.wf()
    }

    /// The tables of a configuration; without one they are empty.
    pub fn new(cfg: Option<&AppConfig>, list: Option<&str>) -> (r: Tables)
        requires
            cfg matches Some(c) ==> c.wf(),
        ensures
            r.wf(),
            match cfg {
                Some(c) => {
                    &&& r.uid_map@ == tables_of(list, sets_of(*c)).by_uid
                    &&& r.pkg_uid@ == tables_of(list, sets_of(*c)).by_pkg
                    &&& r.cpu_pkgs@ == sets_of(*c).cpu
                    &&& r.rfr_pkgs@ == sets_of(*c).rfr
                },
                None => {
                    &&& r.uid_map@ == Map::<i32, EntryView>::empty()
                    &&& r.pkg_uid@ == Map::<Seq<char>, i32>::empty()
                    &&& r.cpu_pkgs@ == Set::<Seq<char>>::empty()
                    &&& r.rfr_pkgs@ == Set::<Seq<char>>::empty()
                },
            },
    {
        match cfg {
            Some(c) => {
                let (uid_map, pkg_uid) = build_uid_tables(c, list);
                let (cpu_pkgs, rfr_pkgs) = cfg_pkg_sets(c);
                Tables { uid_map, pkg_uid, cpu_pkgs, rfr_pkgs }
            },
            None => Tables {
                uid_map: UidTable::new(),
                pkg_uid: NameMap::new(),
                cpu_pkgs: NameSet::new(),
                rfr_pkgs: NameSet::new(),
            },
        }
    }

    /// The package list has changed: both tables are built again.
    pub fn rebuild_uid_tables(&mut self, cfg: Option<&AppConfig>, list: Option<&str>)
        requires
            old(self).wf(),
            cfg matches Some(c) ==> c.wf(),
        ensures
            final(self).wf(),
            final(self).cpu_pkgs == old(self).cpu_pkgs,
            final(self).rfr_pkgs == old(self).rfr_pkgs,
            match cfg {
                Some(c) => {
                    &&& final(self).uid_map@ == tables_of(list, sets_of(*c)).by_uid
                    &&& final(self).pkg_uid@ == tables_of(list, sets_of(*c)).by_pkg
                },
                None => *final(self) == *old(self),
            },
    {
        if let Some(c) = cfg {
            let (uid_map, pkg_uid) = build_uid_tables(c, list);
            self.uid_map = uid_map;
            self.pkg_uid = pkg_uid;
        }
    }

    /// The packages of the configuration are not those of the tables, in a way
    /// that matters.
    pub open spec fn is_outdated(self, cpu_changed: bool, sets: PkgSets) -> bool {
        (cpu_changed && sets.cpu != self.cpu_pkgs@) || sets.rfr != self.rfr_pkgs@
    }

    /// Brings the tables up to date with a configuration, if its packages have
    /// changed. Packages that stay keep their user numbers; new ones are looked
    /// up in the package list.
    pub fn rebuild_uid_if_needed(&mut self, cpu_changed: bool, cfg: &AppConfig, list: Option<&str>)
        requires
            old(self).wf(),
            cfg.wf(),
        ensures
            final(self).wf(),
            !old(self).is_outdated(cpu_changed, sets_of(*cfg)) ==> *final(self) == *old(self),
            old(self).is_outdated(cpu_changed, sets_of(*cfg)) ==> {
                let sets = sets_of(*cfg);
                &&& final(self).cpu_pkgs@ == sets.cpu
                &&& final(self).rfr_pkgs@ == sets.rfr
                &&& forall|u: i32| #[trigger]
                    rebuilt_at(old(self).uid_map@, final(self).uid_map@, sets, list, u)
                &&& forall|p: Seq<char>| #[trigger]
                    renumbered(
                        old(self).pkg_uid@,
                        final(self).pkg_uid@,
                        final(self).uid_map@,
                        sets,
                        p,
                    )
            },
    {
        let (cpu, rfr) = cfg_pkg_sets(cfg);
        let ghost sets = sets_of(*cfg);
        let cpu_differs: bool = cpu_changed && !cpu.same_as(&self.cpu_pkgs);
        if !cpu_differs && rfr.same_as(&self.rfr_pkgs) {
            return ;
        }
        let ghost m = self.uid_map@;
        let mut table = keep_rows(&self.uid_map, &cpu, &rfr);
        let known = table_pkgs(&table);
        let ghost none = Set::<Seq<char>>::empty();
        proof {
            assert(sets =~= (PkgSets { cpu: cpu@, rfr: rfr@ }));
            assert forall|u: i32| #[trigger] rebuilt_upto(m, table@, sets, list, none, u) by {}
        }
        add_newcomers(&mut table, &cpu, &known, &cpu, &rfr, list, Ghost(m), Ghost(none));
        add_newcomers(
            &mut table,
            &rfr,
            &known,
            &cpu,
            &rfr,
            list,
            Ghost(m),
            Ghost(none.union(cpu@)),
        );
        proof {
            let done = none.union(cpu@).union(rfr@);
            assert forall|u: i32| #[trigger] rebuilt_at(m, table@, sets, list, u) by {
                assert(rebuilt_upto(m, table@, sets, list, done, u));
                if exists|p: Seq<char>| #[trigger] is_newcomer(m, sets, list, p, u) {
                    let p = choose|p: Seq<char>| #[trigger] is_newcomer(m, sets, list, p, u);
                    assert(is_newcomer_of(m, sets, list, done, p, u));
                }
                if exists|p: Seq<char>| #[trigger] is_newcomer_of(m, sets, list, done, p, u) {
                    let p = choose|p: Seq<char>| #[trigger]
                        is_newcomer_of(m, sets, list, done, p, u);
                    assert(is_newcomer(m, sets, list, p, u));
                }
            }
        }
        self.pkg_uid = renumber(&self.pkg_uid, &table, &cpu, &rfr);
        self.uid_map = table;
        self.cpu_pkgs = cpu;
        self.rfr_pkgs = rfr;
    }
}

/// A line of the package list gives the package by its first word, and its user
/// number by its second.
pub proof fn package_lines_are_read(p: Seq<char>, uid: nat, rest: Seq<char>)
    requires
        http::is_visible(p),
        uid <= i32::MAX,
    ensures
        waylay::listed_package(p + seq![' '] + number::dec(uid)) == Some((uid as int, p)),
        waylay::listed_package(p + seq![' '] + number::dec(uid) + seq![' '] + rest) == Some(
            (uid as int, p),
        ),
{
    let d = number::dec(uid);
    number::dec_reads_back(uid);
    number::signed_reads_dec_int(uid as int, i32::MIN as int, i32::MAX as int);
    assert forall|i: int| 0 <= i < d.len() implies !text::is_space(#[trigger] d[i]) by {
        assert(number::is_digit(d[i]));
    }
    http::lemma_two_words(p, d);
    let line = p + seq![' '] + d + seq![' '] + rest;
    let tail = d + seq![' '] + rest;
    let n = p.len() as int;
    assert(line =~= p + seq![' '] + tail);
    assert(line[0] == p[0]);
    assert forall|j: int| 0 <= j < n implies !text::is_space(#[trigger] line[j]) by {
        assert(line[j] == p[j]);
    }
    text::lemma_word_len(line, n);
    assert(line.take(n) =~= p);
    assert(line.skip(n)[0] == ' ');
    assert(line.skip(n).skip(1) =~= tail);
    let m = d.len() as int;
    assert(tail[0] == d[0]);
    assert forall|j: int| 0 <= j < m implies !text::is_space(#[trigger] tail[j]) by {
        assert(tail[j] == d[j]);
    }
    text::lemma_word_len(tail, m);
    assert(tail.take(m) =~= d);
    reveal_with_fuel(text::words, 4);
    let ws = text::words(line);
    assert(ws[0] == p && ws[1] == d);
}

/// The packages that something is done for are those with CPU rules, those with
/// a refresh rate of their own, and the home screen.
pub proof fn ruled_packages_are_wanted(cfg: AppConfig, p: Seq<char>)
    requires
        cfg.wf(),
    ensures
        sets_of(cfg).cpu.contains(p) <==> exists|i: int|
            0 <= i < cfg.rules@.len() && (#[trigger] cfg.rules@[i]).pkg@ == p,
        sets_of(cfg).rfr.contains(p) <==> p == "com.android.launcher3"@
            || cfg.app_refresh_configs@.contains_key(p),
        sets_of(cfg).wants(p) <==> sets_of(cfg).cpu.contains(p) || sets_of(cfg).rfr.contains(p),
        sets_of(cfg).entry(p).cpu == sets_of(cfg).cpu.contains(p),
        sets_of(cfg).entry(p).rfr == sets_of(cfg).rfr.contains(p),
        sets_of(cfg).entry(p).pkg == p,
{
    config::packages_are_those_of_the_rules(cfg, p);
}

/// A listed package of the first user that something is done for is found, by
/// its user number and by its name. Where no line before it has that number or
/// that name, these lead to each other.
pub proof fn listed_packages_are_found(
    lines: Seq<Seq<char>>,
    n: nat,
    sets: PkgSets,
    k: int,
    uid: i32,
    p: Seq<char>,
)
    requires
        0 <= k < n <= lines.len(),
        waylay::listed_package(lines[k]) == Some((uid as int, p)),
        uid < 100000,
        sets.cpu.contains(p) || sets.rfr.contains(p),
    ensures
        ({
            let t = tables_after(lines, n, sets);
            &&& t.by_uid.contains_key(uid)
            &&& t.by_pkg.contains_key(p)
            &&& (forall|j: int|
                0 <= j < k ==> !(waylay::listed_package(#[trigger] lines[j]) matches Some((u, _))
                    && u == uid)) ==> t.by_uid[uid] == EntryView {
                pkg: p,
                cpu: sets.cpu.contains(p),
                rfr: sets.rfr.contains(p),
            }
            &&& (forall|j: int|
                0 <= j < k ==> !(waylay::listed_package(#[trigger] lines[j]) matches Some((_, q))
                    && q == p)) ==> t.by_pkg[p] == uid
        }),
    decreases n,
{
    let t0 = tables_after(lines, (n - 1) as nat, sets);
    if k < n - 1 {
        listed_packages_are_found(lines, (n - 1) as nat, sets, k, uid, p);
    } else {
        if forall|j: int|
            0 <= j < k ==> !(waylay::listed_package(#[trigger] lines[j]) matches Some((u, _)) && u
                == uid) {
            lemma_no_number(lines, k as nat, sets, uid);
        }
        if forall|j: int|
            0 <= j < k ==> !(waylay::listed_package(#[trigger] lines[j]) matches Some((_, q)) && q
                == p) {
            lemma_no_name(lines, k as nat, sets, p);
        }
    }
}

proof fn lemma_no_number(lines: Seq<Seq<char>>, n: nat, sets: PkgSets, uid: i32)
    requires
        n <= lines.len(),
        forall|j: int|
            0 <= j < n ==> !(waylay::listed_package(#[trigger] lines[j]) matches Some((u, _)) && u
                == uid),
    ensures
        !tables_after(lines, n, sets).by_uid.contains_key(uid),
    decreases n,
{
    if n > 0 {
        lemma_no_number(lines, (n - 1) as nat, sets, uid);
        let l = lines[n - 1];
        if let Some((u, q)) = waylay::listed_package(l) {
            assert(u != uid);
            assert(i32::MIN <= u <= i32::MAX);
        }
    }
}

proof fn lemma_no_name(lines: Seq<Seq<char>>, n: nat, sets: PkgSets, p: Seq<char>)
    requires
        n <= lines.len(),
        forall|j: int|
            0 <= j < n ==> !(waylay::listed_package(#[trigger] lines[j]) matches Some((_, q)) && q
                == p),
    ensures
        !tables_after(lines, n, sets).by_pkg.contains_key(p),
    decreases n,
{
    if n > 0 {
        lemma_no_name(lines, (n - 1) as nat, sets, p);
    }
}

/// A package that is found by name has a user number under which there is an
/// entry, and something is done for it.
pub proof fn numbers_have_entries(lines: Seq<Seq<char>>, n: nat, sets: PkgSets, p: Seq<char>)
    requires
        tables_after(lines, n, sets).by_pkg.contains_key(p),
    ensures
        sets.wants(p),
        tables_after(lines, n, sets).by_uid.contains_key(
            tables_after(lines, n, sets).by_pkg[p],
        ),
    decreases n,
{
    if n > 0 {
        let t = tables_after(lines, (n - 1) as nat, sets);
        if t.by_pkg.contains_key(p) {
            numbers_have_entries(lines, (n - 1) as nat, sets, p);
        }
    }
}

/// Every entry of the table is for a package that something is done for, with
/// the right flags.
pub proof fn entries_are_wanted(lines: Seq<Seq<char>>, n: nat, sets: PkgSets, u: i32)
    requires
        tables_after(lines, n, sets).by_uid.contains_key(u),
    ensures
        u < SECOND_USER,
        sets.wants(tables_after(lines, n, sets).by_uid[u].pkg),
        tables_after(lines, n, sets).by_uid[u] == sets.entry(
            tables_after(lines, n, sets).by_uid[u].pkg,
        ),
    decreases n,
{
    if n > 0 {
        let t = tables_after(lines, (n - 1) as nat, sets);
        if t.by_uid.contains_key(u) {
            entries_are_wanted(lines, (n - 1) as nat, sets, u);
        }
    }
}

/// After the packages have changed, too, every entry is for a package that
/// something is done for, and is found by the name of its package.
pub proof fn rebuilt_entries_are_wanted(
    m: Map<i32, EntryView>,
    now: Map<i32, EntryView>,
    rev: Map<Seq<char>, i32>,
    now_rev: Map<Seq<char>, i32>,
    sets: PkgSets,
    list: Option<&str>,
    u: i32,
)
    requires
        rebuilt_at(m, now, sets, list, u),
        now.contains_key(u),
        renumbered(rev, now_rev, now, sets, now[u].pkg),
    ensures
        sets.wants(now[u].pkg),
        now[u] == sets.entry(now[u].pkg),
        now_rev.contains_key(now[u].pkg),
        now[now_rev[now[u].pkg]].pkg == now[u].pkg,
{
    assert(has_pkg(now, now[u].pkg));
}

/// A package that is looked up has the user number of its first line in the
/// package list.
pub proof fn users_are_looked_up(lines: Seq<Seq<char>>, pkg: Seq<char>, i: int, k: int)
    requires
        0 <= i <= k < lines.len(),
        text::words(lines[k]).len() >= 2,
        text::words(lines[k])[0] == pkg,
        forall|j: int|
            i <= j < k ==> text::words(#[trigger] lines[j]).len() < 2 || text::words(lines[j])[0]
                != pkg,
    ensures
        uid_from(lines, pkg, i) == number::signed(
            text::words(lines[k])[1],
            i32::MIN as int,
            i32::MAX as int,
        ),
    decreases k - i,
{
    if i < k {
        assert(text::words(lines[i]).len() < 2 || text::words(lines[i])[0] != pkg);
        users_are_looked_up(lines, pkg, i + 1, k);
    }
}

/// When the packages change, one that stays keeps its user number and has its
/// new flags, one that nothing is done for any longer is gone, and a new one has
/// the number under which the package list has it.
pub proof fn tables_follow_the_packages(
    m: Map<i32, EntryView>,
    now: Map<i32, EntryView>,
    sets: PkgSets,
    list: Option<&str>,
    u: i32,
)
    requires
        rebuilt_at(m, now, sets, list, u),
    ensures
        now.contains_key(u) ==> (sets.cpu.contains(now[u].pkg) || sets.rfr.contains(now[u].pkg))
            && now[u].cpu == sets.cpu.contains(now[u].pkg) && now[u].rfr == sets.rfr.contains(
            now[u].pkg,
        ),
        now.contains_key(u) && !(m.contains_key(u) && m[u].pkg == now[u].pkg) ==> uid_in(
            list,
            now[u].pkg,
        ) == Some(u as int),
        m.contains_key(u) && sets.wants(m[u].pkg) ==> now.contains_key(u),
        forall|p: Seq<char>| #[trigger]
            sets.wants(p) && uid_in(list, p) == Some(u as int) && (forall|v: i32|
                m.contains_key(v) ==> (#[trigger] m[v]).pkg != p) ==> now.contains_key(u),
{
    assert forall|p: Seq<char>| #[trigger]
        sets.wants(p) && uid_in(list, p) == Some(u as int) && (forall|v: i32|
            m.contains_key(v) ==> (#[trigger] m[v]).pkg != p) implies now.contains_key(u) by {
        assert(!has_pkg(kept(m, sets), p)) by {
            if has_pkg(kept(m, sets), p) {
                let v = choose|v: i32| #[trigger]
                    kept(m, sets).contains_key(v) && kept(m, sets)[v].pkg == p;
                assert(m[v].pkg == p);
            }
        }
        assert(is_newcomer(m, sets, list, p, u));
    }
}

} // verus!
