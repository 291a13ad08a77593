//! What the main loop does when an application comes to the foreground and when
//! the configuration changes.
use std::collections::HashMap;
use vstd::prelude::*;

use crate::config::AppConfig;
use crate::cpu_affinity;
use crate::cpu_affinity::{CpuKnown, CpuMsg};
use crate::names::NameMap;
use crate::order;
use crate::text;
use crate::uid_table;
use crate::uid_table::Tables;
use crate::waylay;
use crate::waylay::{WaylayKind, WaylayRule, WaylayStore, WaylayView};

verus! {

broadcast use {vstd::string::group_string_axioms, vstd::std_specs::hash::group_hash_axioms};

/// The most rules on files that the kernel module takes.
pub const MAX_FILE_RULES: usize = 512;

/// A rule on files as the kernel module takes it.
pub struct VfcRow {
    pub pkg: String,
    pub kind: String,
    pub target: String,
    pub from: String,
    pub to: String,
}

/// The contents of a rule on files.
#[verifier::ext_equal]
pub ghost struct RowView {
    pub pkg: Seq<char>,
    pub kind: Seq<char>,
    pub target: Seq<char>,
    pub from: Seq<char>,
    pub to: Seq<char>,
}

impl View for VfcRow {
    type V = RowView;

    open spec fn view(&self) -> RowView {
        RowView {
            pkg: self.pkg@,
            kind: self.kind@,
            target: self.target@,
            from: self.from@,
            to: self.to@,
        }
    }
}

impl Clone for VfcRow {
    fn clone(&self) -> (r: VfcRow)
        ensures
            r == *self,
    {
        VfcRow {
            pkg: self.pkg.clone(),
            kind: self.kind.clone(),
            target: self.target.clone(),
            from: self.from.clone(),
            to: self.to.clone(),
        }
    }
}

/// The contents of some rules on files.
pub open spec fn row_views(rows: Seq<VfcRow>) -> Seq<RowView> {
    rows.map_values(|r: VfcRow| r@)
}

/// Something to be done, mostly by the kernel module.
pub enum KpmCall {
    /// Attach its probes.
    Arm,
    /// Detach its probes.
    Disarm,
    /// Put the rules on files in force.
    VfcApply,
    /// Drop the rules on files.
    VfcRuleClear,
    /// Take a rule on files under that number.
    VfcRule(usize, VfcRow),
    /// So many of the rules on files are for all applications.
    VfcGlobCount(usize),
    /// That application is in the foreground.
    VfcFg(String),
    /// Drop the disguises of services.
    SrvClear,
    /// Take the disguise of a service under that number.
    SrvRule(usize, String, String),
    /// Turn the disguises of services on or off.
    SrvActive(bool),
    /// Take over those disguises of properties.
    SetPropRules(Vec<(String, String)>),
    /// Disguise properties, or restore them.
    PropFileApply(bool),
    /// Give the copies of redirected files the rights of the originals.
    SyncRedPath,
    /// Map the files of the disguised properties.
    EnsurePropMaps,
    /// Look up the applications with disguises in the package list.
    RebuildPkgByUid,
    /// Note whether the module is armed.
    Armed(bool),
}

/// What is to be done, as contracts speak of it.
#[verifier::ext_equal]
pub ghost enum CallView {
    Arm,
    Disarm,
    VfcApply,
    VfcRuleClear,
    VfcRule(nat, RowView),
    VfcGlobCount(nat),
    VfcFg(Seq<char>),
    SrvClear,
    SrvRule(nat, Seq<char>, Seq<char>),
    SrvActive(bool),
    SetPropRules(Seq<(Seq<char>, Seq<char>)>),
    PropFileApply(bool),
    SyncRedPath,
    EnsurePropMaps,
    RebuildPkgByUid,
    Armed(bool),
}

impl View for KpmCall {
    type V = CallView;

    open spec fn view(&self) -> CallView {
        match self {
            KpmCall::Arm => CallView::Arm,
            KpmCall::Disarm => CallView::Disarm,
            KpmCall::VfcApply => CallView::VfcApply,
            KpmCall::VfcRuleClear => CallView::VfcRuleClear,
            KpmCall::VfcRule(i, r) => CallView::VfcRule(*i as nat, r@),
            KpmCall::VfcGlobCount(n) => CallView::VfcGlobCount(*n as nat),
            KpmCall::VfcFg(p) => CallView::VfcFg(p@),
            KpmCall::SrvClear => CallView::SrvClear,
            KpmCall::SrvRule(i, a, b) => CallView::SrvRule(*i as nat, a@, b@),
            KpmCall::SrvActive(on) => CallView::SrvActive(*on),
            KpmCall::SetPropRules(v) => CallView::SetPropRules(waylay::pair_views(v@)),
            KpmCall::PropFileApply(on) => CallView::PropFileApply(*on),
            KpmCall::SyncRedPath => CallView::SyncRedPath,
            KpmCall::EnsurePropMaps => CallView::EnsurePropMaps,
            KpmCall::RebuildPkgByUid => CallView::RebuildPkgByUid,
            KpmCall::Armed(on) => CallView::Armed(*on),
        }
    }
}

/// All that is to be done.
pub open spec fn call_views(calls: Seq<KpmCall>) -> Seq<CallView> {
    calls.map_values(|c: KpmCall| c@)
}

/// Appends what is to be done.
fn push_call(calls: &mut Vec<KpmCall>, c: KpmCall)
    ensures
        call_views(final(calls)@) == call_views(old(calls)@).push(c@),
{
    let ghost before = calls@;
    calls.push(c);
    proof {
        assert(call_views(calls@) =~= call_views(before).push(c@));
    }
}

/// The state of the main loop that decides what the kernel module is told.
#[verifier::ext_equal]
pub ghost struct StateView {
    /// The kernel module is there.
    pub kpm: bool,
    /// The disguises of services are on.
    pub srv: bool,
    /// The disguises of properties are on.
    pub prop: bool,
    /// The application in the foreground; empty where it has no disguises.
    pub fg: Seq<char>,
    /// The rules on files that were sent last.
    pub rows: Seq<RowView>,
}

/// The disguises of services for an application.
pub open spec fn services_of(rules: Seq<WaylayView>, pkg: Seq<char>) -> Seq<WaylayView> {
    rules.filter(|r: WaylayView| r.pkg == pkg && r.kind == WaylayKind::Src)
}

/// The disguises of properties for an application.
pub open spec fn properties_of(rules: Seq<WaylayView>, pkg: Seq<char>) -> Seq<
    (Seq<char>, Seq<char>),
> {
    rules.filter(|r: WaylayView| r.pkg == pkg && r.kind == WaylayKind::Prop).map_values(
        |r: WaylayView| (r.from, r.to),
    )
}

/// The application has disguises of some kind.
pub open spec fn has_rules(rules: Seq<WaylayView>, pkg: Seq<char>) -> bool {
    exists|i: int| 0 <= i < rules.len() && (#[trigger] rules[i]).pkg == pkg
}

/// The disguises of services under their numbers.
pub open spec fn service_calls(ws: Seq<WaylayView>) -> Seq<CallView> {
    Seq::new(ws.len(), |i: int| CallView::SrvRule(i as nat, ws[i].from, ws[i].to))
}

/// The kind of a rule on files, as the kernel module takes it.
pub open spec fn row_of(w: WaylayView) -> RowView {
    if w.kind == WaylayKind::Red {
        RowView { pkg: w.pkg, kind: "c"@, target: w.target, from: w.from, to: w.to }
    } else {
        RowView { pkg: w.pkg, kind: "p"@, target: "-"@, from: w.from, to: w.to }
    }
}

/// The rules on files among all rules.
pub open spec fn file_rows(ws: Seq<WaylayView>) -> Seq<RowView> {
    ws.filter(
        |w: WaylayView| w.kind == WaylayKind::Red || w.kind == WaylayKind::RedPath,
    ).map_values(|w: WaylayView| row_of(w))
}

/// Where a rule belongs, from `i` on: before the first rule of a later package.
pub open spec fn slot(rows: Seq<RowView>, pkg: Seq<char>, i: int) -> int
    decreases rows.len() - i,
{
    if i >= rows.len() {
        rows.len() as int
    } else if order::before(pkg, rows[i].pkg) {
        i
    } else {
        slot(rows, pkg, i + 1)
    }
}

/// The rules by package; those of one package stay in the order they had.
pub open spec fn by_package(rows: Seq<RowView>) -> Seq<RowView>
    decreases rows.len(),
{
    if rows.len() == 0 {
        seq![]
    } else {
        let s = by_package(rows.drop_last());
        s.insert(slot(s, rows.last().pkg, 0), rows.last())
    }
}

/// The lesser of a count and the most rules on files.
pub open spec fn at_most_rules(n: nat) -> nat {
    if n <= MAX_FILE_RULES {
        n
    } else {
        MAX_FILE_RULES as nat
    }
}

/// How many rules are for all applications.
pub open spec fn global_rows(rows: Seq<RowView>) -> nat {
    rows.filter(|r: RowView| r.pkg == "*"@).len()
}

/// Sends the rules on files: drop the old ones, take the new ones, as many as
/// fit, say how many are for all, and which application is in the foreground.
pub open spec fn row_calls(rows: Seq<RowView>, fg: Seq<char>) -> Seq<CallView> {
    seq![CallView::VfcRuleClear] + Seq::new(
        at_most_rules(rows.len()),
        |i: int| CallView::VfcRule(i as nat, rows[i]),
    ) + seq![CallView::VfcGlobCount(at_most_rules(global_rows(rows))), CallView::VfcFg(fg)]
}

/// All rules on files are sent; without the module they are only noted.
pub open spec fn all_sent(st: StateView, ws: Seq<WaylayView>) -> (StateView, Seq<CallView>) {
    let rows = by_package(file_rows(ws));
    (
        StateView { rows, ..st },
        if st.kpm {
            row_calls(rows, st.fg)
        } else {
            seq![]
        },
    )
}

/// The rules on files are sent if they differ from those that were sent last.
pub open spec fn synced(st: StateView, ws: Seq<WaylayView>) -> (StateView, Seq<CallView>) {
    if by_package(file_rows(ws)) == st.rows {
        (st, seq![])
    } else {
        all_sent(st, ws)
    }
}

/// The kernel module is armed or disarmed; `found` tells whether it was found
/// when it was looked for once more. A module that is armed gets all rules on
/// files.
pub open spec fn arm_set(st: StateView, arm: bool, found: bool, ws: Seq<WaylayView>) -> (
    StateView,
    Seq<CallView>,
) {
    let st1 = StateView { kpm: st.kpm || (arm && found), ..st };
    let (st2, calls) = if arm {
        all_sent(st1, ws)
    } else {
        (st1, seq![])
    };
    if !st2.kpm {
        (st2, calls)
    } else if arm {
        (
            st2,
            calls + seq![
                CallView::Arm,
                CallView::SyncRedPath,
                CallView::VfcApply,
                CallView::Armed(true),
            ],
        )
    } else {
        (
            StateView { srv: false, ..st2 },
            calls + seq![CallView::Disarm, CallView::Armed(false)],
        )
    }
}

/// A request to arm (1) or disarm (-1) the module is met.
pub open spec fn arm_request_met(st: StateView, req: int, found: bool, ws: Seq<WaylayView>) -> (
    StateView,
    Seq<CallView>,
) {
    if req == 1 {
        arm_set(st, true, found, ws)
    } else if req == -1 {
        arm_set(st, false, found, ws)
    } else {
        (st, seq![])
    }
}

/// The application in the foreground gets its new disguises at once. Without the
/// module nothing is put in force.
pub open spec fn redisguised(st: StateView, ws: Seq<WaylayView>) -> (StateView, Seq<CallView>) {
    let src = services_of(ws, st.fg);
    let props = properties_of(ws, st.fg);
    if st.fg.len() == 0 || !st.kpm {
        (st, seq![])
    } else {
        (
            StateView { srv: src.len() > 0, prop: props.len() > 0, ..st },
            seq![CallView::SrvClear] + service_calls(src) + seq![
                CallView::SrvActive(src.len() > 0),
            ] + (if props.len() > 0 {
                seq![CallView::SetPropRules(props)]
            } else {
                seq![]
            }) + seq![CallView::PropFileApply(props.len() > 0)],
        )
    }
}

/// The disguises of properties that are in force are undone.
pub open spec fn undo_calls(st: StateView) -> Seq<CallView> {
    if st.kpm && st.prop {
        seq![CallView::PropFileApply(false)]
    } else {
        seq![]
    }
}

/// The disguises have changed, those on files among them or not. The old
/// disguises of properties are undone before anything else.
pub open spec fn rules_changed(st: StateView, vfc: bool, ws: Seq<WaylayView>) -> (
    StateView,
    Seq<CallView>,
) {
    let (st1, c1) = if vfc {
        synced(st, ws)
    } else {
        (st, seq![])
    };
    let (st2, c2) = redisguised(st1, ws);
    (
        st2,
        undo_calls(st) + c1 + seq![
            CallView::SyncRedPath,
            CallView::EnsurePropMaps,
            CallView::RebuildPkgByUid,
        ] + c2,
    )
}

/// What a reload of the configuration does to the kernel module.
pub open spec fn reloaded(
    st: StateView,
    req: int,
    found: bool,
    changed: bool,
    vfc: bool,
    ws: Seq<WaylayView>,
) -> (StateView, Seq<CallView>) {
    let (st1, c1) = arm_request_met(st, req, found, ws);
    if changed {
        let (st2, c2) = rules_changed(st1, vfc, ws);
        (st2, c1 + c2)
    } else {
        (st1, c1)
    }
}

/// The services of the application that comes to the foreground are disguised in
/// place of those of the one before it.
pub open spec fn services_switched(st: StateView, pkg: Seq<char>, ws: Seq<WaylayView>) -> Seq<
    CallView,
> {
    let active = has_rules(ws, pkg);
    if active && (pkg != st.fg || !st.srv) {
        seq![CallView::SrvClear] + service_calls(services_of(ws, pkg)) + seq![
            CallView::SrvActive(true),
        ]
    } else if !active && st.srv {
        seq![CallView::SrvActive(false)]
    } else {
        seq![]
    }
}

/// The properties of the application that comes to the foreground are disguised,
/// once the disguises of the one before it have been undone.
pub open spec fn properties_switched(st: StateView, pkg: Seq<char>, ws: Seq<WaylayView>) -> Seq<
    CallView,
> {
    let props = properties_of(ws, pkg);
    let want = props.len() > 0;
    (if st.prop && (pkg != st.fg || !want) {
        seq![CallView::PropFileApply(false)]
    } else {
        seq![]
    }) + (if want && (pkg != st.fg || !st.prop) {
        seq![CallView::SetPropRules(props), CallView::PropFileApply(true)]
    } else {
        seq![]
    })
}

/// What an application that comes to the foreground does to the kernel module.
/// Without the module nothing is put in force.
pub open spec fn foregrounded(st: StateView, pkg: Seq<char>, ws: Seq<WaylayView>) -> (
    StateView,
    Seq<CallView>,
) {
    if st.kpm {
        (
            StateView {
                fg: pkg,
                srv: has_rules(ws, pkg),
                prop: properties_of(ws, pkg).len() > 0,
                ..st
            },
            seq![CallView::VfcFg(pkg)] + services_switched(st, pkg, ws) + properties_switched(
                st,
                pkg,
                ws,
            ),
        )
    } else {
        (StateView { fg: pkg, ..st }, seq![])
    }
}

fn rows_alike(a: &VfcRow, b: &VfcRow) -> (r: bool)
    ensures
        r == (a@ == b@),
{
    text::same(a.pkg.as_str(), b.pkg.as_str()) && text::same(a.kind.as_str(), b.kind.as_str())
        && text::same(a.target.as_str(), b.target.as_str()) && text::same(
        a.from.as_str(),
        b.from.as_str(),
    ) && text::same(a.to.as_str(), b.to.as_str())
}

fn same_rows(a: &Vec<VfcRow>, b: &Vec<VfcRow>) -> (r: bool)
    ensures
        r == (row_views(a@) == row_views(b@)),
{
    if a.len() != b.len() {
        assert(row_views(a@).len() != row_views(b@).len());
        return false;
    }
    let mut i: usize = 0;
    while i < a.len()
        invariant
            i <= a.len(),
            a.len() == b.len(),
            forall|j: int| 0 <= j < i ==> (#[trigger] a@[j])@ == b@[j]@,
        decreases a.len() - i,
    {
        if !rows_alike(&a[i], &b[i]) {
            assert(row_views(a@)[i as int] != row_views(b@)[i as int]);
            return false;
        }
        i += 1;
    }
    assert(row_views(a@) =~= row_views(b@));
    true
}

proof fn lemma_filter_step<A>(s: Seq<A>, i: int, p: spec_fn(A) -> bool)
    requires
        0 <= i < s.len(),
    ensures
        s.take(i + 1).filter(p) == (if p(s[i]) {
            s.take(i).filter(p).push(s[i])
        } else {
            s.take(i).filter(p)
        }),
{
    reveal(Seq::filter);
    assert(s.take(i + 1).drop_last() =~= s.take(i));
    assert(s.take(i + 1).last() == s[i]);
}

proof fn lemma_slot(rows: Seq<RowView>, pkg: Seq<char>, i: int)
    requires
        0 <= i <= rows.len(),
    ensures
        i <= slot(rows, pkg, i) <= rows.len(),
        forall|j: int|
            i <= j < slot(rows, pkg, i) ==> !order::before(pkg, (#[trigger] rows[j]).pkg),
        slot(rows, pkg, i) < rows.len() ==> order::before(pkg, rows[slot(rows, pkg, i)].pkg),
    decreases rows.len() - i,
{
    if i < rows.len() && !order::before(pkg, rows[i].pkg) {
        lemma_slot(rows, pkg, i + 1);
    }
}

/// Puts a rule where it belongs.
fn place_row(rows: &mut Vec<VfcRow>, row: VfcRow)
    ensures
        row_views(final(rows)@) == row_views(old(rows)@).insert(
            slot(row_views(old(rows)@), row@.pkg, 0),
            row@,
        ),
{
    let ghost vs = row_views(rows@);
    let mut k: usize = 0;
    while k < rows.len() && !order::comes_before(row.pkg.as_str(), rows[k].pkg.as_str())
        invariant
            k <= rows.len(),
            vs == row_views(rows@),
            slot(vs, row@.pkg, 0) == slot(vs, row@.pkg, k as int),
        decreases rows.len() - k,
    {
        assert(vs[k as int] == rows@[k as int]@);
        k += 1;
    }
    proof {
        if k < rows.len() {
            assert(vs[k as int] == rows@[k as int]@);
        }
    }
    let ghost before = rows@;
    rows.insert(k, row);
    proof {
        assert(row_views(rows@) =~= vs.insert(k as int, row@));
    }
}

/// The rules on files, by package.
fn rows_by_package(rules: &Vec<WaylayRule>) -> (r: Vec<VfcRow>)
    ensures
        row_views(r@) == by_package(file_rows(waylay::waylay_views(rules@))),
{
    let ghost ws = waylay::waylay_views(rules@);
    let ghost keep = |w: WaylayView| w.kind == WaylayKind::Red || w.kind == WaylayKind::RedPath;
    let mut r: Vec<VfcRow> = Vec::new();
    let mut i: usize = 0;
    proof {
        reveal(Seq::filter);
        assert(ws.take(0) =~= Seq::<WaylayView>::empty());
        assert(file_rows(ws.take(0)) =~= Seq::<RowView>::empty());
        assert(row_views(r@) =~= Seq::<RowView>::empty());
    }
    while i < rules.len()
        invariant
            i <= rules.len(),
            ws == waylay::waylay_views(rules@),
            keep == (|w: WaylayView| w.kind == WaylayKind::Red || w.kind == WaylayKind::RedPath),
            row_views(r@) == by_package(file_rows(ws.take(i as int))),
        decreases rules.len() - i,
    {
        let rule = &rules[i];
        let ghost a = file_rows(ws.take(i as int));
        let ghost b = file_rows(ws.take(i + 1));
        proof {
            lemma_filter_step(ws, i as int, keep);
            assert(ws[i as int] == rule@);
            if keep(rule@) {
                assert(b =~= a.push(row_of(rule@)));
                assert(b.drop_last() =~= a);
            } else {
                assert(b =~= a);
            }
        }
        if rule.kind == WaylayKind::Red {
            place_row(
                &mut r,
                VfcRow {
                    pkg: rule.pkg.clone(),
                    kind: "c".to_owned(),
                    target: rule.target.clone(),
                    from: rule.from.clone(),
                    to: rule.to.clone(),
                },
            );
        } else if rule.kind == WaylayKind::RedPath {
            place_row(
                &mut r,
                VfcRow {
                    pkg: rule.pkg.clone(),
                    kind: "p".to_owned(),
                    target: "-".to_owned(),
                    from: rule.from.clone(),
                    to: rule.to.clone(),
                },
            );
        }
        i += 1;
    }
    proof {
        assert(ws.take(i as int) =~= ws);
    }
    r
}

/// How many rules are for all applications.
fn count_global(rows: &Vec<VfcRow>) -> (r: usize)
    ensures
        r == global_rows(row_views(rows@)),
{
    let ghost vs = row_views(rows@);
    let ghost star = |r: RowView| r.pkg == "*"@;
    let mut n: usize = 0;
    let mut i: usize = 0;
    proof {
        reveal(Seq::filter);
        assert(vs.take(0) =~= Seq::<RowView>::empty());
    }
    while i < rows.len()
        invariant
            i <= rows.len(),
            n <= i,
            vs == row_views(rows@),
            star == (|r: RowView| r.pkg == "*"@),
            n == vs.take(i as int).filter(star).len(),
        decreases rows.len() - i,
    {
        proof {
            lemma_filter_step(vs, i as int, star);
            assert(vs[i as int] == rows@[i as int]@);
        }
        if text::same(rows[i].pkg.as_str(), "*") {
            n += 1;
        }
        i += 1;
    }
    proof {
        assert(vs.take(i as int) =~= vs);
    }
    n
}

/// Sends the disguises of services for an application; how many there are.
fn push_services(calls: &mut Vec<KpmCall>, rules: &Vec<WaylayRule>, pkg: &str) -> (n: usize)
    ensures
        n == services_of(waylay::waylay_views(rules@), pkg@).len(),
        call_views(final(calls)@) == call_views(old(calls)@) + service_calls(
            services_of(waylay::waylay_views(rules@), pkg@),
        ),
{
    let ghost ws = waylay::waylay_views(rules@);
    let ghost keep = |r: WaylayView| r.pkg == pkg@ && r.kind == WaylayKind::Src;
    let ghost before = call_views(calls@);
    let mut n: usize = 0;
    let mut i: usize = 0;
    proof {
        reveal(Seq::filter);
        assert(ws.take(0) =~= Seq::<WaylayView>::empty());
        assert(call_views(calls@) =~= before + service_calls(services_of(ws.take(0), pkg@)));
    }
    while i < rules.len()
        invariant
            i <= rules.len(),
            n <= i,
            ws == waylay::waylay_views(rules@),
            keep == (|r: WaylayView| r.pkg == pkg@ && r.kind == WaylayKind::Src),
            n == services_of(ws.take(i as int), pkg@).len(),
            call_views(calls@) == before + service_calls(services_of(ws.take(i as int), pkg@)),
        decreases rules.len() - i,
    {
        let rule = &rules[i];
        let ghost a = services_of(ws.take(i as int), pkg@);
        let ghost b = services_of(ws.take(i + 1), pkg@);
        proof {
            lemma_filter_step(ws, i as int, keep);
            assert(ws[i as int] == rule@);
        }
        if rule.kind == WaylayKind::Src && text::same(rule.pkg.as_str(), pkg) {
            push_call(calls, KpmCall::SrvRule(n, rule.from.clone(), rule.to.clone()));
            n += 1;
            proof {
                assert(b == a.push(rule@));
                assert(call_views(calls@) =~= before + service_calls(b));
            }
        }
        i += 1;
    }
    proof {
        assert(ws.take(i as int) =~= ws);
    }
    n
}

/// The disguises of properties for an application.
fn property_pairs(rules: &Vec<WaylayRule>, pkg: &str) -> (r: Vec<(String, String)>)
    ensures
        waylay::pair_views(r@) == properties_of(waylay::waylay_views(rules@), pkg@),
{
    let ghost ws = waylay::waylay_views(rules@);
    let ghost keep = |r: WaylayView| r.pkg == pkg@ && r.kind == WaylayKind::Prop;
    let mut r: Vec<(String, String)> = Vec::new();
    let mut i: usize = 0;
    proof {
        reveal(Seq::filter);
        assert(ws.take(0) =~= Seq::<WaylayView>::empty());
        assert(waylay::pair_views(r@) =~= properties_of(ws.take(0), pkg@));
    }
    while i < rules.len()
        invariant
            i <= rules.len(),
            ws == waylay::waylay_views(rules@),
            keep == (|r: WaylayView| r.pkg == pkg@ && r.kind == WaylayKind::Prop),
            waylay::pair_views(r@) == properties_of(ws.take(i as int), pkg@),
        decreases rules.len() - i,
    {
        let rule = &rules[i];
        let ghost a = properties_of(ws.take(i as int), pkg@);
        let ghost b = properties_of(ws.take(i + 1), pkg@);
        let ghost before = r@;
        proof {
            lemma_filter_step(ws, i as int, keep);
            assert(ws[i as int] == rule@);
        }
        if rule.kind == WaylayKind::Prop && text::same(rule.pkg.as_str(), pkg) {
            r.push((rule.from.clone(), rule.to.clone()));
            proof {
                assert(b =~= a.push((rule@.from, rule@.to)));
                assert(waylay::pair_views(r@) =~= waylay::pair_views(before).push(
                    (rule@.from, rule@.to),
                ));
            }
        } else {
            proof {
                assert(b =~= a);
            }
        }
        i += 1;
    }
    proof {
        assert(ws.take(i as int) =~= ws);
    }
    r
}

/// Whether the application has disguises of some kind.
fn any_rule(rules: &Vec<WaylayRule>, pkg: &str) -> (r: bool)
    ensures
        r == has_rules(waylay::waylay_views(rules@), pkg@),
{
    let mut i: usize = 0;
    while i < rules.len()
        invariant
            i <= rules.len(),
            forall|j: int| 0 <= j < i ==> (#[trigger] rules@[j])@.pkg != pkg@,
        decreases rules.len() - i,
    {
        if text::same(rules[i].pkg.as_str(), pkg) {
            assert(waylay::waylay_views(rules@)[i as int].pkg == pkg@);
            return true;
        }
        i += 1;
    }
    proof {
        let ws = waylay::waylay_views(rules@);
        assert forall|j: int| 0 <= j < ws.len() implies (#[trigger] ws[j]).pkg != pkg@ by {
            assert(ws[j] == rules@[j]@);
        }
    }
    false
}

/// The state that the main loop keeps from one event to the next.
pub struct AppState {
    /// The kernel module is there.
    pub kpm: bool,
    pub tables: Tables,
    /// The disguises of services are on.
    pub srv_active_cur: bool,
    /// The application in the foreground; empty where it has no disguises.
    pub last_fg_pkg: String,
    /// The rules on files that were sent last.
    pub rule_cache: Vec<VfcRow>,
    /// The disguises of properties are on.
    pub prop_active_cur: bool,
}

/// What an application that comes to the foreground asks for.
pub struct FgPlan {
    /// What the kernel module is told.
    pub calls: Vec<KpmCall>,
    /// Wait for the end of the process, and place its threads.
    pub place: Option<CpuMsg>,
    /// Tell the refresh-rate thread that this application is in the foreground.
    pub refresh: Option<String>,
}

impl AppState {
    /// The part of the state that decides what the kernel module is told.
    pub open spec fn at(self) -> StateView {
        StateView {
            kpm: self.kpm,
            srv: self.srv_active_cur,
            prop: self.prop_active_cur,
            fg: self.last_fg_pkg@,
            rows: row_views(self.rule_cache@),
        }
    }

    /// The state at the start.
    pub fn new(cfg: Option<&AppConfig>, list: Option<&str>) -> (r: AppState)
        requires
            cfg matches Some(c) ==> c.wf(),
        ensures
            r.tables.wf(),
            r.at() == (StateView {
                kpm: false,
                srv: false,
                prop: false,
                fg: seq![],
                rows: seq![],
            }),
            match cfg {
                Some(c) => {
                    let sets = uid_table::sets_of(*c);
                    &&& r.tables.uid_map@ == uid_table::tables_of(list, sets).by_uid
                    &&& r.tables.pkg_uid@ == uid_table::tables_of(list, sets).by_pkg
                    &&& r.tables.cpu_pkgs@ == sets.cpu
                    &&& r.tables.rfr_pkgs@ == sets.rfr
                },
                None => r.tables.uid_map@ == Map::<i32, uid_table::EntryView>::empty()
                    && r.tables.pkg_uid@ == Map::<Seq<char>, i32>::empty(),
            },
    {
        let r = AppState {
            kpm: false,
            tables: Tables::new(cfg, list),
            srv_active_cur: false,
            last_fg_pkg: String::new(),
            rule_cache: Vec::new(),
            prop_active_cur: false,
        };
        proof {
            assert(r.last_fg_pkg@ =~= Seq::<char>::empty());
            assert(row_views(r.rule_cache@) =~= Seq::<RowView>::empty());
        }
        r
    }

    /// Sends all rules on files.
    fn send_rows(&mut self, rows: Vec<VfcRow>, Ghost(ws): Ghost<Seq<WaylayView>>) -> (calls: Vec<
        KpmCall,
    >)
        requires
            row_views(rows@) == by_package(file_rows(ws)),
        ensures
            (final(self).at(), call_views(calls@)) == all_sent(old(self).at(), ws),
            final(self).tables == old(self).tables,
    {
        let mut calls: Vec<KpmCall> = Vec::new();
        let ghost vs = row_views(rows@);
        proof {
            assert(call_views(calls@) =~= Seq::<CallView>::empty());
        }
        if self.kpm {
            push_call(&mut calls, KpmCall::VfcRuleClear);
            let n: usize = if rows.len() <= MAX_FILE_RULES {
                rows.len()
            } else {
                MAX_FILE_RULES
            };
            let mut i: usize = 0;
            let ghost head = seq![CallView::VfcRuleClear];
            proof {
                assert(call_views(calls@) =~= head + Seq::new(
                    0,
                    |i: int| CallView::VfcRule(i as nat, vs[i]),
                ));
            }
            while i < n
                invariant
                    i <= n <= rows.len(),
                    vs == row_views(rows@),
                    call_views(calls@) == head + Seq::new(
                        i as nat,
                        |i: int| CallView::VfcRule(i as nat, vs[i]),
                    ),
                decreases n - i,
            {
                push_call(&mut calls, KpmCall::VfcRule(i, rows[i].clone()));
                proof {
                    assert(vs[i as int] == rows@[i as int]@);
                    assert(call_views(calls@) =~= head + Seq::new(
                        (i + 1) as nat,
                        |i: int| CallView::VfcRule(i as nat, vs[i]),
                    ));
                }
                i += 1;
            }
            let g: usize = count_global(&rows);
            push_call(
                &mut calls,
                KpmCall::VfcGlobCount(
                    if g <= MAX_FILE_RULES {
                        g
                    } else {
                        MAX_FILE_RULES
                    },
                ),
            );
            push_call(&mut calls, KpmCall::VfcFg(self.last_fg_pkg.clone()));
            proof {
                assert(call_views(calls@) =~= row_calls(vs, self.last_fg_pkg@));
            }
        }
        self.rule_cache = rows;
        calls
    }

    /// Sends the rules on files, if they differ from those that were sent last.
    pub fn sync_vfc_rules(&mut self, rules: &Vec<WaylayRule>) -> (calls: Vec<KpmCall>)
        ensures
            (final(self).at(), call_views(calls@)) == synced(
                old(self).at(),
                waylay::waylay_views(rules@),
            ),
            final(self).tables == old(self).tables,
    {
        let rows = rows_by_package(rules);
        if same_rows(&rows, &self.rule_cache) {
            let calls: Vec<KpmCall> = Vec::new();
            proof {
                assert(call_views(calls@) =~= Seq::<CallView>::empty());
            }
            return calls;
        }
        self.send_rows(rows, Ghost(waylay::waylay_views(rules@)))
    }

    /// Whether the kernel module is to be looked for once more, before it is
    /// armed.
    pub fn wants_init(&self, req: i8) -> (r: bool)
        ensures
            r == (req == 1 && !self.kpm),
    {
        req == 1 && !self.kpm
    }

    /// Arms or disarms the kernel module.
    pub fn set_kpm_arm(&mut self, arm: bool, found: bool, rules: &Vec<WaylayRule>) -> (calls: Vec<
        KpmCall,
    >)
        ensures
            (final(self).at(), call_views(calls@)) == arm_set(
                old(self).at(),
                arm,
                found,
                waylay::waylay_views(rules@),
            ),
            final(self).tables == old(self).tables,
    {
        if arm && found {
            self.kpm = true;
        }
        let mut calls: Vec<KpmCall> = Vec::new();
        proof {
            assert(call_views(calls@) =~= Seq::<CallView>::empty());
        }
        if arm {
            let rows = rows_by_package(rules);
            calls = self.send_rows(rows, Ghost(waylay::waylay_views(rules@)));
        }
        let ghost before = call_views(calls@);
        if self.kpm {
            if arm {
                push_call(&mut calls, KpmCall::Arm);
                push_call(&mut calls, KpmCall::SyncRedPath);
                push_call(&mut calls, KpmCall::VfcApply);
                push_call(&mut calls, KpmCall::Armed(true));
                proof {
                    assert(call_views(calls@) =~= before + seq![
                        CallView::Arm,
                        CallView::SyncRedPath,
                        CallView::VfcApply,
                        CallView::Armed(true),
                    ]);
                }
            } else {
                push_call(&mut calls, KpmCall::Disarm);
                push_call(&mut calls, KpmCall::Armed(false));
                self.srv_active_cur = false;
                proof {
                    assert(call_views(calls@) =~= before + seq![
                        CallView::Disarm,
                        CallView::Armed(false),
                    ]);
                }
            }
        }
        calls
    }

    /// Gives the application in the foreground its new disguises.
    fn redisguise(&mut self, calls: &mut Vec<KpmCall>, rules: &Vec<WaylayRule>)
        ensures
            final(self).tables == old(self).tables,
            ({
                let (st, more) = redisguised(old(self).at(), waylay::waylay_views(rules@));
                final(self).at() == st && call_views(final(calls)@) == call_views(old(calls)@)
                    + more
            }),
    {
        let ghost ws = waylay::waylay_views(rules@);
        let ghost before = call_views(calls@);
        if self.last_fg_pkg.as_str().is_empty() || !self.kpm {
            proof {
                assert(before =~= before + Seq::<CallView>::empty());
            }
            return ;
        }
        let pkg = self.last_fg_pkg.clone();
        let props = property_pairs(rules, pkg.as_str());
        let has_prop: bool = props.len() > 0;
        proof {
            assert(waylay::pair_views(props@).len() == props@.len());
        }
        push_call(calls, KpmCall::SrvClear);
        let n: usize = push_services(calls, rules, pkg.as_str());
        push_call(calls, KpmCall::SrvActive(n > 0));
        if has_prop {
            push_call(calls, KpmCall::SetPropRules(props));
        }
        push_call(calls, KpmCall::PropFileApply(has_prop));
        self.srv_active_cur = n > 0;
        self.prop_active_cur = has_prop;
        proof {
            assert(call_views(calls@) =~= before + redisguised(old(self).at(), ws).1);
        }
    }

    /// The configuration of the disguises has been loaded: what that asks for.
    /// `req` is the request to arm (1) or disarm (-1) the kernel module.
    pub fn reload(&mut self, store: &mut WaylayStore, req: i8, found: bool) -> (calls: Vec<KpmCall>)
        ensures
            ({
                let vfc = old(store).changed && old(store).vfc_changed;
                &&& (final(self).at(), call_views(calls@)) == reloaded(
                    old(self).at(),
                    req as int,
                    found,
                    old(store).changed,
                    vfc,
                    waylay::waylay_views(old(store).rules@),
                )
                &&& *final(store) == (WaylayStore {
                    changed: false,
                    vfc_changed: old(store).vfc_changed && !vfc,
                    ..*old(store)
                })
            }),
            final(self).tables == old(self).tables,
    {
        let ghost ws = waylay::waylay_views(store.rules@);
        let ghost st0 = self.at();
        let mut calls: Vec<KpmCall> = Vec::new();
        proof {
            assert(call_views(calls@) =~= Seq::<CallView>::empty());
        }
        if req == 1 {
            calls = self.set_kpm_arm(true, found, &store.rules);
        } else if req == -1 {
            calls = self.set_kpm_arm(false, found, &store.rules);
        }
        let ghost st1 = self.at();
        let ghost c1 = call_views(calls@);
        assert((st1, c1) == arm_request_met(st0, req as int, found, ws));
        if waylay::take_waylay_changed(store) {
            let mut more: Vec<KpmCall> = Vec::new();
            proof {
                assert(call_views(more@) =~= Seq::<CallView>::empty());
            }
            if self.kpm && self.prop_active_cur {
                push_call(&mut more, KpmCall::PropFileApply(false));
            }
            assert(call_views(more@) =~= undo_calls(st1));
            let vfc: bool = waylay::take_vfc_changed(store);
            if vfc {
                let rows = self.sync_vfc_rules(&store.rules);
                append_calls(&mut more, rows);
            }
            let ghost m1 = call_views(more@);
            assert(m1 =~= undo_calls(st1) + (if vfc {
                synced(st1, ws).1
            } else {
                seq![]
            }));
            push_call(&mut more, KpmCall::SyncRedPath);
            push_call(&mut more, KpmCall::EnsurePropMaps);
            push_call(&mut more, KpmCall::RebuildPkgByUid);
            let ghost m2 = call_views(more@);
            self.redisguise(&mut more, &store.rules);
            proof {
                assert(m2 =~= m1 + seq![
                    CallView::SyncRedPath,
                    CallView::EnsurePropMaps,
                    CallView::RebuildPkgByUid,
                ]);
                assert(call_views(more@) =~= rules_changed(st1, vfc, ws).1);
            }
            let ghost c2 = call_views(more@);
            append_calls(&mut calls, more);
            proof {
                assert(call_views(calls@) == c1 + c2);
            }
        }
        calls
    }

    /// Disguises the services of the application that comes to the foreground;
    /// whether it has disguises.
    fn switch_services(&self, calls: &mut Vec<KpmCall>, rules: &Vec<WaylayRule>, pkg: &str) -> (r:
        bool)
        ensures
            r == has_rules(waylay::waylay_views(rules@), pkg@),
            call_views(final(calls)@) == call_views(old(calls)@) + services_switched(
                self.at(),
                pkg@,
                waylay::waylay_views(rules@),
            ),
    {
        let ghost ws = waylay::waylay_views(rules@);
        let ghost before = call_views(calls@);
        let active: bool = any_rule(rules, pkg);
        let other: bool = !text::same(pkg, self.last_fg_pkg.as_str());
        if active && (other || !self.srv_active_cur) {
            push_call(calls, KpmCall::SrvClear);
            let _ = push_services(calls, rules, pkg);
            push_call(calls, KpmCall::SrvActive(true));
        } else if !active && self.srv_active_cur {
            push_call(calls, KpmCall::SrvActive(false));
        }
        assert(call_views(calls@) =~= before + services_switched(self.at(), pkg@, ws));
        active
    }

    /// Disguises the properties of the application that comes to the foreground;
    /// whether it has such disguises.
    fn switch_properties(&self, calls: &mut Vec<KpmCall>, rules: &Vec<WaylayRule>, pkg: &str) -> (r:
        bool)
        ensures
            r == (properties_of(waylay::waylay_views(rules@), pkg@).len() > 0),
            call_views(final(calls)@) == call_views(old(calls)@) + properties_switched(
                self.at(),
                pkg@,
                waylay::waylay_views(rules@),
            ),
    {
        let ghost ws = waylay::waylay_views(rules@);
        let ghost before = call_views(calls@);
        let props = property_pairs(rules, pkg);
        let want: bool = props.len() > 0;
        let other: bool = !text::same(pkg, self.last_fg_pkg.as_str());
        proof {
            assert(waylay::pair_views(props@).len() == props@.len());
        }
        if self.prop_active_cur && (other || !want) {
            push_call(calls, KpmCall::PropFileApply(false));
        }
        if want && (other || !self.prop_active_cur) {
            push_call(calls, KpmCall::SetPropRules(props));
            push_call(calls, KpmCall::PropFileApply(true));
        }
        assert(call_views(calls@) =~= before + properties_switched(self.at(), pkg@, ws));
        want
    }

    /// An application has come to the foreground: what that asks for.
    /// `by_uid` gives the package of each application that has disguises.
    pub fn on_fg(
        &mut self,
        pid: i32,
        uid: i32,
        by_uid: &HashMap<i32, String>,
        rules: &Vec<WaylayRule>,
        known: &CpuKnown,
    ) -> (r: FgPlan)
        requires
            old(self).tables.wf(),
        ensures
            ({
                let pkg = if by_uid@.contains_key(uid) {
                    by_uid@[uid]@
                } else {
                    Seq::<char>::empty()
                };
                (final(self).at(), call_views(r.calls@)) == foregrounded(
                    old(self).at(),
                    pkg,
                    waylay::waylay_views(rules@),
                )
            }),
            final(self).tables == old(self).tables,
            is_planned(old(self).tables.uid_map@, *known, pid, uid, r),
    {
        let ghost ws = waylay::waylay_views(rules@);
        let ghost st0 = self.at();
        let pkg: String = match by_uid.get(&uid) {
            Some(p) => p.clone(),
            None => {
                let e = String::new();
                assert(e@ =~= Seq::<char>::empty());
                e
            },
        };
        let mut calls: Vec<KpmCall> = Vec::new();
        proof {
            assert(call_views(calls@) =~= Seq::<CallView>::empty());
        }
        if self.kpm {
            push_call(&mut calls, KpmCall::VfcFg(pkg.clone()));
            let active: bool = self.switch_services(&mut calls, rules, pkg.as_str());
            let want: bool = self.switch_properties(&mut calls, rules, pkg.as_str());
            assert(call_views(calls@) =~= foregrounded(st0, pkg@, ws).1);
            self.srv_active_cur = active;
            self.prop_active_cur = want;
        }
        self.last_fg_pkg = pkg;
        let mut place: Option<CpuMsg> = None;
        let mut refresh: Option<String> = None;
        if let Some(e) = self.tables.uid_map.get(uid) {
            if e.cpu && !cpu_affinity::cpu_known_is_hot(known, uid, pid) {
                place = Some(CpuMsg::ApplyPkg(pid, uid, e.pkg.clone()));
            }
            if e.rfr {
                refresh = Some(e.pkg.clone());
            }
        }
        FgPlan { calls, place, refresh }
    }
}

/// What an application that comes to the foreground asks for, by the table of
/// applications and those that are known: to be placed, where it has CPU rules
/// and is not known with that process, and its refresh rate, where it has one.
pub open spec fn is_planned(
    t: Map<i32, uid_table::EntryView>,
    known: CpuKnown,
    pid: i32,
    uid: i32,
    r: FgPlan,
) -> bool {
    let cold = t.contains_key(uid) && t[uid].cpu && !cpu_affinity::known_as(known, uid, pid);
    &&& match r.place {
        Some(m) => cold && (m matches CpuMsg::ApplyPkg(p, u, name) && p == pid && u == uid && name@
            == t[uid].pkg),
        None => !cold,
    }
    &&& match r.refresh {
        Some(name) => t.contains_key(uid) && t[uid].rfr && name@ == t[uid].pkg,
        None => !(t.contains_key(uid) && t[uid].rfr),
    }
}

/// An application with CPU rules that comes to the foreground with a new main
/// process is placed, under its own package and with that process; one that is
/// known with that process is not placed again. One with a refresh rate gets it
/// each time.
pub proof fn foreground_applications_are_placed(
    t: Map<i32, uid_table::EntryView>,
    known: CpuKnown,
    pid: i32,
    uid: i32,
    r: FgPlan,
)
    requires
        is_planned(t, known, pid, uid, r),
    ensures
        t.contains_key(uid) && t[uid].cpu && !known.map@.contains_key(uid) ==> (
        r.place matches Some(m) && (m matches CpuMsg::ApplyPkg(p, u, name) && p == pid && u == uid
            && name@ == t[uid].pkg)),
        t.contains_key(uid) && t[uid].cpu && known.map@.contains_key(uid) && known.map@[uid].0 != pid
            ==> r.place is Some,
        known.map@.contains_key(uid) && known.map@[uid].0 == pid ==> r.place is None,
        t.contains_key(uid) && !t[uid].cpu ==> r.place is None,
        t.contains_key(uid) && t[uid].rfr ==> (r.refresh matches Some(name) && name@ == t[uid].pkg),
        t.contains_key(uid) && !t[uid].rfr ==> r.refresh is None,
        !t.contains_key(uid) ==> r.place is None && r.refresh is None,
{
}

/// A rule that was edited is put in force for its thread, or for its package,
/// under the number of that package; without an edit all packages with CPU rules
/// are placed anew.
pub proof fn edited_rules_are_replayed(
    p: Seq<char>,
    t: Seq<char>,
    cpu: Set<Seq<char>>,
    by_pkg: Map<Seq<char>, i32>,
    r: Replay,
    q: Seq<char>,
)
    ensures
        replay_of(Some((p, Some(t))), cpu, by_pkg, r) && by_pkg.contains_key(p) ==> (
        r matches Replay::Thread(u, a, b) && u == by_pkg[p] && a@ == p && b@ == t),
        replay_of(Some((p, None)), cpu, by_pkg, r) && by_pkg.contains_key(p) ==> (
        r matches Replay::Package(u, a) && u == by_pkg[p] && a@ == p),
        replay_of(Some((p, None)), cpu, by_pkg, r) && !by_pkg.contains_key(p) ==> r is Nothing,
        replay_of(Some((p, Some(t))), cpu, by_pkg, r) && !by_pkg.contains_key(p) ==> r is Nothing,
        replay_of(None, cpu, by_pkg, r) ==> (r matches Replay::All(m) && (m@.contains_key(q)
            <==> cpu.contains(q) && by_pkg.contains_key(q)) && (m@.contains_key(q) ==> m@[q]
            == by_pkg[q])),
{
}

/// Appends all that is to be done.
fn append_calls(calls: &mut Vec<KpmCall>, more: Vec<KpmCall>)
    ensures
        call_views(final(calls)@) == call_views(old(calls)@) + call_views(more@),
{
    let ghost before = calls@;
    let ghost rest = more@;
    let mut more = more;
    calls.append(&mut more);
    proof {
        assert(call_views(calls@) =~= call_views(before) + call_views(rest));
    }
}

/// What a change of the configuration asks of the thread that places threads.
pub enum Replay {
    Nothing,
    /// Place the threads with that name.
    Thread(i32, String, String),
    /// Place the threads of that application.
    Package(i32, String),
    /// Place the threads of all those applications.
    All(NameMap<i32>),
}

/// The last rule that was edited: its package and, for a thread rule, the
/// thread.
pub open spec fn replay_of(
    last: Option<(Seq<char>, Option<Seq<char>>)>,
    cpu: Set<Seq<char>>,
    by_pkg: Map<Seq<char>, i32>,
    r: Replay,
) -> bool {
    match last {
        Some((p, Some(t))) => if by_pkg.contains_key(p) {
            r matches Replay::Thread(u, rp, rt) && u == by_pkg[p] && rp@ == p && rt@ == t
        } else {
            r is Nothing
        },
        Some((p, None)) => if by_pkg.contains_key(p) {
            r matches Replay::Package(u, rp) && u == by_pkg[p] && rp@ == p
        } else {
            r is Nothing
        },
        None => r matches Replay::All(m) && m.wf() && m@ == uid_table::known_uids(cpu, by_pkg),
    }
}

/// The last edit as the contract speaks of it.
pub open spec fn edit_view(last: Option<(String, Option<String>)>) -> Option<
    (Seq<char>, Option<Seq<char>>),
> {
    match last {
        Some((p, Some(t))) => Some((p@, Some(t@))),
        Some((p, None)) => Some((p@, None)),
        None => None,
    }
}

/// What is to be placed again after the rules have changed: the thread or the
/// package that was edited last, else everything. A package that is not
/// installed has nothing to place.
pub fn kpm_full_apply(
    cfg: &AppConfig,
    pkg_uid: &NameMap<i32>,
    last: Option<(String, Option<String>)>,
) -> (r: Replay)
    requires
        cfg.wf(),
        pkg_uid.wf(),
    ensures
        replay_of(edit_view(last), uid_table::sets_of(*cfg).cpu, pkg_uid@, r),
{
    match last {
        Some((p, thread)) => {
            let uid: i32 = match pkg_uid.get(p.as_str()) {
                Some(u) => *u,
                None => {
                    return Replay::Nothing;
                },
            };
            match thread {
                Some(t) => Replay::Thread(uid, p, t),
                None => Replay::Package(uid, p),
            }
        },
        None => Replay::All(uid_table::cpu_pkg_uids(cfg, pkg_uid)),
    }
}

/// What is to be placed again after a reload; nothing where the CPU rules are
/// the same. The last edit is used up only where it is looked at.
pub fn apply_config(
    cpu_changed: bool,
    cfg: Option<&AppConfig>,
    pkg_uid: &NameMap<i32>,
    last: &mut Option<(String, Option<String>)>,
) -> (r: Replay)
    requires
        cfg matches Some(c) ==> c.wf(),
        pkg_uid.wf(),
    ensures
        match cfg {
            Some(c) => if cpu_changed {
                *final(last) is None && replay_of(
                    edit_view(*old(last)),
                    uid_table::sets_of(*c).cpu,
                    pkg_uid@,
                    r,
                )
            } else {
                r is Nothing && *final(last) == *old(last)
            },
            None => r is Nothing && *final(last) == *old(last),
        },
{
    match cfg {
        Some(c) => {
            if !cpu_changed {
                return Replay::Nothing;
            }
            let taken = last.take();
            kpm_full_apply(c, pkg_uid, taken)
        },
        None => Replay::Nothing,
    }
}

proof fn lemma_placed(s: Seq<RowView>, x: RowView)
    requires
        forall|i: int, j: int|
            0 <= i < j < s.len() ==> !order::before((#[trigger] s[j]).pkg, (#[trigger] s[i]).pkg),
    ensures
        ({
            let t = s.insert(slot(s, x.pkg, 0), x);
            forall|i: int, j: int|
                0 <= i < j < t.len() ==> !order::before(
                    (#[trigger] t[j]).pkg,
                    (#[trigger] t[i]).pkg,
                )
        }),
{
    lemma_slot(s, x.pkg, 0);
    let k = slot(s, x.pkg, 0);
    let t = s.insert(k, x);
    assert forall|i: int, j: int| 0 <= i < j < t.len() implies !order::before(
        (#[trigger] t[j]).pkg,
        (#[trigger] t[i]).pkg,
    ) by {
        if j == k {
            assert(t[i] == s[i]);
        } else if i == k {
            assert(t[j] == s[j - 1]);
            if order::before(t[j].pkg, x.pkg) {
                if j - 1 == k {
                    order::lemma_before_transitive(x.pkg, s[k].pkg, x.pkg);
                } else {
                    order::lemma_before_transitive(s[j - 1].pkg, x.pkg, s[k].pkg);
                }
                order::lemma_before_irreflexive(x.pkg);
            }
        } else {
            let a = if i < k {
                i
            } else {
                i - 1
            };
            let b = if j < k {
                j
            } else {
                j - 1
            };
            assert(t[i] == s[a]);
            assert(t[j] == s[b]);
        }
    }
}

/// The rules on files are sent in the order of their packages, and none is lost
/// or added.
pub proof fn rows_are_in_order(rows: Seq<RowView>)
    ensures
        forall|i: int, j: int|
            0 <= i < j < by_package(rows).len() ==> !order::before(
                (#[trigger] by_package(rows)[j]).pkg,
                (#[trigger] by_package(rows)[i]).pkg,
            ),
        by_package(rows).to_multiset() == rows.to_multiset(),
        by_package(rows).len() == rows.len(),
    decreases rows.len(),
{
    broadcast use vstd::seq_lib::group_to_multiset_ensures;

    if rows.len() > 0 {
        let init = rows.drop_last();
        rows_are_in_order(init);
        let s = by_package(init);
        lemma_placed(s, rows.last());
        lemma_slot(s, rows.last().pkg, 0);
        assert(rows =~= init.push(rows.last()));
        vstd::seq_lib::to_multiset_insert(s, slot(s, rows.last().pkg, 0), rows.last());
    } else {
        assert(rows =~= Seq::<RowView>::empty());
    }
}

/// An application's disguises of services and of properties are those of its own
/// rules of that kind, from what each rule names first to what it names second.
#[verifier::rlimit(50)]
pub proof fn disguises_are_those_of_the_rules(
    ws: Seq<WaylayView>,
    pkg: Seq<char>,
    from: Seq<char>,
    to: Seq<char>,
)
    ensures
        properties_of(ws, pkg).contains((from, to)) <==> exists|i: int|
            0 <= i < ws.len() && (#[trigger] ws[i]).pkg == pkg && ws[i].kind == WaylayKind::Prop
                && ws[i].from == from && ws[i].to == to,
        (exists|k: int|
            0 <= k < service_calls(services_of(ws, pkg)).len() && service_calls(
                services_of(ws, pkg),
            )[k] == CallView::SrvRule(k as nat, from, to)) <==> exists|i: int|
            0 <= i < ws.len() && (#[trigger] ws[i]).pkg == pkg && ws[i].kind == WaylayKind::Src
                && ws[i].from == from && ws[i].to == to,
        has_rules(ws, pkg) <==> exists|i: int| 0 <= i < ws.len() && (#[trigger] ws[i]).pkg == pkg,
    decreases ws.len(),
{
    let f = |r: WaylayView| r.pkg == pkg && r.kind == WaylayKind::Prop;
    let g = |r: WaylayView| r.pkg == pkg && r.kind == WaylayKind::Src;
    let h = |r: WaylayView| (r.from, r.to);
    let a = ws.filter(f);
    let b = ws.filter(g);
    lemma_filter_finds(ws, f);
    lemma_filter_finds(ws, g);
    let ps = a.map_values(h);
    if ps.contains((from, to)) {
        let k = ps.index_of((from, to));
        assert(f(a[k]));
        assert(ws.contains(a[k]));
        let i = ws.index_of(a[k]);
        assert(ws[i] == a[k]);
    }
    if exists|i: int|
        0 <= i < ws.len() && (#[trigger] ws[i]).pkg == pkg && ws[i].kind == WaylayKind::Prop
            && ws[i].from == from && ws[i].to == to {
        let i = choose|i: int|
            0 <= i < ws.len() && (#[trigger] ws[i]).pkg == pkg && ws[i].kind == WaylayKind::Prop
                && ws[i].from == from && ws[i].to == to;
        assert(f(ws[i]));
        let k = a.index_of(ws[i]);
        assert(ps[k] == (from, to));
    }
    let cs = service_calls(b);
    if exists|k: int| 0 <= k < cs.len() && cs[k] == CallView::SrvRule(k as nat, from, to) {
        let k = choose|k: int| 0 <= k < cs.len() && cs[k] == CallView::SrvRule(k as nat, from, to);
        assert(g(b[k]));
        assert(ws.contains(b[k]));
        let i = ws.index_of(b[k]);
        assert(ws[i] == b[k]);
    }
    if exists|i: int|
        0 <= i < ws.len() && (#[trigger] ws[i]).pkg == pkg && ws[i].kind == WaylayKind::Src
            && ws[i].from == from && ws[i].to == to {
        let i = choose|i: int|
            0 <= i < ws.len() && (#[trigger] ws[i]).pkg == pkg && ws[i].kind == WaylayKind::Src
                && ws[i].from == from && ws[i].to == to;
        assert(g(ws[i]));
        let k = b.index_of(ws[i]);
        assert(b[k] == ws[i]);
        assert(cs[k] == CallView::SrvRule(k as nat, from, to));
    }
}

proof fn lemma_filter_finds<A>(s: Seq<A>, f: spec_fn(A) -> bool)
    ensures
        forall|i: int| 0 <= i < s.len() && f(#[trigger] s[i]) ==> s.filter(f).contains(s[i]),
        forall|k: int|
            0 <= k < s.filter(f).len() ==> f(#[trigger] s.filter(f)[k]) && s.contains(
                s.filter(f)[k],
            ),
    decreases s.len(),
{
    reveal(Seq::filter);
    if s.len() > 0 {
        let init = s.drop_last();
        lemma_filter_finds(init, f);
        let a = init.filter(f);
        let b = s.filter(f);
        assert forall|i: int| 0 <= i < s.len() && f(#[trigger] s[i]) implies b.contains(s[i]) by {
            if i < init.len() {
                assert(init[i] == s[i]);
                let k = a.index_of(s[i]);
                assert(a[k] == s[i]);
                assert(b[k] == s[i]);
            } else {
                assert(b[a.len() as int] == s[i]);
            }
        }
        assert forall|k: int| 0 <= k < b.len() implies f(#[trigger] b[k]) && s.contains(b[k]) by {
            if k < a.len() {
                assert(b[k] == a[k]);
                let i = init.index_of(a[k]);
                assert(init[i] == a[k]);
                assert(s[i] == b[k]);
            } else {
                assert(s[s.len() - 1] == b[k]);
            }
        }
    }
}

/// The rules on files that are sent are those that replace the contents of a
/// file, marked `c` and with that file, and those that replace a path, marked
/// `p`; no other rule is sent.
#[verifier::rlimit(50)]
pub proof fn file_rules_are_sent(ws: Seq<WaylayView>, row: RowView)
    ensures
        by_package(file_rows(ws)).contains(row) <==> exists|i: int|
            0 <= i < ws.len() && (#[trigger] ws[i]).pkg == row.pkg && ws[i].from == row.from
                && ws[i].to == row.to && ((ws[i].kind == WaylayKind::Red && row.kind == "c"@
                && row.target == ws[i].target) || (ws[i].kind == WaylayKind::RedPath && row.kind
                == "p"@ && row.target == "-"@)),
{
    reveal_strlit("c");
    reveal_strlit("p");
    assert("c"@[0] != "p"@[0]);
    let f = |w: WaylayView| w.kind == WaylayKind::Red || w.kind == WaylayKind::RedPath;
    let a = ws.filter(f);
    let rows = a.map_values(|w: WaylayView| row_of(w));
    lemma_filter_finds(ws, f);
    rows_are_in_order(rows);
    let sorted = by_package(rows);
    rows.to_multiset_ensures();
    sorted.to_multiset_ensures();
    assert(rows.contains(row) <==> rows.to_multiset().count(row) > 0);
    assert(sorted.contains(row) <==> sorted.to_multiset().count(row) > 0);
    if rows.contains(row) {
        let k = rows.index_of(row);
        assert(f(a[k]));
        assert(ws.contains(a[k]));
        let i = ws.index_of(a[k]);
        assert(ws[i] == a[k]);
    }
    if exists|i: int|
        0 <= i < ws.len() && (#[trigger] ws[i]).pkg == row.pkg && ws[i].from == row.from && ws[i].to
            == row.to && ((ws[i].kind == WaylayKind::Red && row.kind == "c"@ && row.target
            == ws[i].target) || (ws[i].kind == WaylayKind::RedPath && row.kind == "p"@
            && row.target == "-"@)) {
        let i = choose|i: int|
            0 <= i < ws.len() && (#[trigger] ws[i]).pkg == row.pkg && ws[i].from == row.from
                && ws[i].to == row.to && ((ws[i].kind == WaylayKind::Red && row.kind == "c"@
                && row.target == ws[i].target) || (ws[i].kind == WaylayKind::RedPath && row.kind
                == "p"@ && row.target == "-"@));
        assert(f(ws[i]));
        let k = a.index_of(ws[i]);
        assert(a[k] == ws[i]);
        assert(rows[k] == row);
    }
}

/// A request to arm a module that is there, or is found, arms it; one to disarm
/// it detaches it and leaves no disguise of services on. Without a module
/// nothing is armed, and without a request nothing happens.
pub proof fn requests_to_arm_are_met(st: StateView, found: bool, ws: Seq<WaylayView>)
    ensures
        ({
            let (on, calls) = arm_request_met(st, 1, found, ws);
            &&& on.kpm == (st.kpm || found)
            &&& on.kpm ==> calls.contains(CallView::Arm) && calls.last() == CallView::Armed(true)
                && calls.contains(CallView::VfcApply)
            &&& !on.kpm ==> calls.len() == 0
        }),
        ({
            let (off, calls) = arm_request_met(st, -1, found, ws);
            &&& off.kpm == st.kpm
            &&& st.kpm ==> calls == seq![CallView::Disarm, CallView::Armed(false)] && !off.srv
            &&& !st.kpm ==> calls.len() == 0 && off == st
        }),
        arm_request_met(st, 0, found, ws).0 == st,
        arm_request_met(st, 0, found, ws).1.len() == 0,
{
    let st1 = StateView { kpm: st.kpm || found, ..st };
    let (st2, rows) = all_sent(st1, ws);
    let tail = seq![
        CallView::Arm,
        CallView::SyncRedPath,
        CallView::VfcApply,
        CallView::Armed(true),
    ];
    let (on, calls) = arm_request_met(st, 1, found, ws);
    if on.kpm {
        let n = rows.len() as int;
        assert(calls == rows + tail);
        assert(calls[n] == tail[0]);
        assert(calls[n + 2] == tail[2]);
        assert(calls.last() == tail[3]);
    }
    let (off, more) = arm_request_met(st, -1, found, ws);
    if st.kpm {
        assert(more =~= seq![CallView::Disarm, CallView::Armed(false)]);
    }
}

/// The rules of one package stand next to each other.
pub proof fn packages_stay_together(rows: Seq<RowView>, i: int, k: int, j: int)
    requires
        0 <= i <= k <= j < by_package(rows).len(),
        by_package(rows)[i].pkg == by_package(rows)[j].pkg,
    ensures
        by_package(rows)[k].pkg == by_package(rows)[i].pkg,
{
    rows_are_in_order(rows);
    let s = by_package(rows);
    if i < k && k < j {
        order::lemma_before_total(s[k].pkg, s[i].pkg);
        assert(!order::before(s[k].pkg, s[i].pkg));
        assert(!order::before(s[j].pkg, s[k].pkg));
    }
}

/// In an order of packages in which no name comes before `*`, the rules for all
/// applications are the first ones.
proof fn lemma_global_prefix(s: Seq<RowView>)
    requires
        forall|i: int, j: int|
            0 <= i < j < s.len() ==> !order::before(
                (#[trigger] s[j]).pkg,
                (#[trigger] s[i]).pkg,
            ),
        forall|i: int|
            0 <= i < s.len() ==> (#[trigger] s[i]).pkg == "*"@ || order::before("*"@, s[i].pkg),
    ensures
        global_rows(s) <= s.len(),
        forall|i: int|
            0 <= i < s.len() ==> ((#[trigger] s[i]).pkg == "*"@ <==> i < global_rows(s)),
    decreases s.len(),
{
    reveal(Seq::filter);
    if s.len() > 0 {
        let init = s.drop_last();
        assert forall|i: int, j: int| 0 <= i < j < init.len() implies !order::before(
            (#[trigger] init[j]).pkg,
            (#[trigger] init[i]).pkg,
        ) by {
            assert(init[i] == s[i] && init[j] == s[j]);
        }
        assert forall|i: int| 0 <= i < init.len() implies (#[trigger] init[i]).pkg == "*"@
            || order::before("*"@, init[i].pkg) by {
            assert(init[i] == s[i]);
        }
        lemma_global_prefix(init);
        if s.last().pkg == "*"@ {
            assert forall|i: int| 0 <= i < init.len() implies (#[trigger] init[i]).pkg == "*"@ by {
                assert(!order::before(s[s.len() - 1].pkg, s[i].pkg));
            }
            if init.len() > 0 {
                assert(init[init.len() - 1].pkg == "*"@);
            }
        } else if global_rows(init) == s.len() {
            assert(global_rows(init) <= init.len());
        }
        assert forall|i: int| 0 <= i < s.len() implies ((#[trigger] s[i]).pkg == "*"@ <==> i
            < global_rows(s)) by {
            if i < init.len() {
                assert(init[i] == s[i]);
            }
        }
    }
}

/// The rules for all applications are sent first, and their number is the one
/// that is sent behind the rules; so it is wherever no package has a name that
/// comes before `*`.
pub proof fn rules_for_all_come_first(rows: Seq<RowView>)
    requires
        forall|i: int|
            0 <= i < rows.len() ==> (#[trigger] rows[i]).pkg == "*"@ || order::before(
                "*"@,
                rows[i].pkg,
            ),
    ensures
        global_rows(by_package(rows)) <= by_package(rows).len(),
        forall|i: int|
            0 <= i < by_package(rows).len() ==> ((#[trigger] by_package(rows)[i]).pkg == "*"@
                <==> i < global_rows(by_package(rows))),
{
    broadcast use vstd::seq_lib::group_to_multiset_ensures;

    rows_are_in_order(rows);
    let s = by_package(rows);
    assert forall|i: int| 0 <= i < s.len() implies (#[trigger] s[i]).pkg == "*"@ || order::before(
        "*"@,
        s[i].pkg,
    ) by {
        assert(s.contains(s[i]));
        assert(rows.to_multiset().count(s[i]) > 0);
        let k = rows.index_of(s[i]);
        assert(rows[k] == s[i]);
    }
    lemma_global_prefix(s);
}

/// Sending the rules on files once more sends nothing.
pub proof fn syncing_twice(st: StateView, ws: Seq<WaylayView>)
    ensures
        synced(synced(st, ws).0, ws) == (synced(st, ws).0, Seq::<CallView>::empty()),
{
}

/// An application that comes to the foreground twice changes nothing the second
/// time: the kernel module is told no more than that it is there.
pub proof fn same_foreground_is_quiet(st: StateView, pkg: Seq<char>, ws: Seq<WaylayView>)
    ensures
        ({
            let (st1, _) = foregrounded(st, pkg, ws);
            let (st2, calls) = foregrounded(st1, pkg, ws);
            st2 == st1 && calls == (if st.kpm {
                seq![CallView::VfcFg(pkg)]
            } else {
                seq![]
            })
        }),
{
    let (st1, _) = foregrounded(st, pkg, ws);
    let (st2, calls) = foregrounded(st1, pkg, ws);
    if st.kpm {
        assert(calls =~= seq![CallView::VfcFg(pkg)]);
    }
}

/// What the kernel module and the property files are left with by what they are
/// told.
#[verifier::ext_equal]
pub ghost struct InForce {
    /// The rules on files.
    pub rows: Seq<RowView>,
    /// The application in the foreground.
    pub fg: Seq<char>,
    /// The disguises of services that the module holds.
    pub srv: Seq<(Seq<char>, Seq<char>)>,
    /// The module uses them.
    pub srv_on: bool,
    /// The disguises of properties that are to be put in force or undone next.
    pub props: Seq<(Seq<char>, Seq<char>)>,
    /// The disguises of properties that stand in the files.
    pub applied: Set<(Seq<char>, Seq<char>)>,
}

impl InForce {
    /// The disguises of services that show.
    pub open spec fn services(self) -> Seq<(Seq<char>, Seq<char>)> {
        if self.srv_on {
            self.srv
        } else {
            seq![]
        }
    }
}

/// A table with an entry put under a number; a number beyond the end of the
/// table has no place.
pub open spec fn with_entry<A>(t: Seq<A>, i: nat, x: A) -> Seq<A> {
    if i < t.len() {
        t.update(i as int, x)
    } else if i == t.len() {
        t.push(x)
    } else {
        t
    }
}

/// What one thing that is told does.
pub open spec fn told(k: InForce, c: CallView) -> InForce {
    match c {
        CallView::VfcRuleClear => InForce { rows: seq![], ..k },
        CallView::VfcRule(i, r) => InForce { rows: with_entry(k.rows, i, r), ..k },
        CallView::VfcFg(p) => InForce { fg: p, ..k },
        CallView::SrvClear => InForce { srv: seq![], ..k },
        CallView::SrvRule(i, a, b) => InForce { srv: with_entry(k.srv, i, (a, b)), ..k },
        CallView::SrvActive(on) => InForce { srv_on: on, ..k },
        CallView::Disarm => InForce { srv_on: false, ..k },
        CallView::SetPropRules(ps) => InForce { props: ps, ..k },
        CallView::PropFileApply(on) => InForce {
            applied: if on {
                k.applied.union(k.props.to_set())
            } else {
                k.applied.difference(k.props.to_set())
            },
            ..k
        },
        _ => k,
    }
}

/// What all that is told does, in its order.
pub open spec fn told_all(k: InForce, cs: Seq<CallView>) -> InForce
    decreases cs.len(),
{
    if cs.len() == 0 {
        k
    } else {
        told(told_all(k, cs.drop_last()), cs.last())
    }
}

/// The services and what they are shown as.
pub open spec fn service_pairs(ws: Seq<WaylayView>) -> Seq<(Seq<char>, Seq<char>)> {
    ws.map_values(|w: WaylayView| (w.from, w.to))
}

/// The state of the main loop tells what is in force: disguises of services and
/// properties are on just as it says, and they are those of the application in
/// the foreground.
pub open spec fn mirrors(st: StateView, k: InForce, ws: Seq<WaylayView>) -> bool {
    &&& k.services() == (if st.srv {
        service_pairs(services_of(ws, st.fg))
    } else {
        seq![]
    })
    &&& k.applied == (if st.prop {
        properties_of(ws, st.fg).to_set()
    } else {
        Set::empty()
    })
    &&& st.prop ==> k.props == properties_of(ws, st.fg)
    &&& !st.kpm ==> !st.srv && !st.prop
    &&& st.fg.len() == 0 ==> !st.srv && !st.prop
}

/// Every rule names an application.
pub open spec fn all_named(ws: Seq<WaylayView>) -> bool {
    forall|i: int| 0 <= i < ws.len() ==> (#[trigger] ws[i]).pkg.len() > 0
}

/// The state, and what is in force, after some applications have come to the
/// foreground one after the other.
pub open spec fn after_foregrounds(
    st: StateView,
    k: InForce,
    pkgs: Seq<Seq<char>>,
    ws: Seq<WaylayView>,
) -> (StateView, InForce)
    decreases pkgs.len(),
{
    if pkgs.len() == 0 {
        (st, k)
    } else {
        let (st1, k1) = after_foregrounds(st, k, pkgs.drop_last(), ws);
        let (st2, calls) = foregrounded(st1, pkgs.last(), ws);
        (st2, told_all(k1, calls))
    }
}

proof fn lemma_told_append(k: InForce, a: Seq<CallView>, b: Seq<CallView>)
    ensures
        told_all(k, a + b) == told_all(told_all(k, a), b),
    decreases b.len(),
{
    if b.len() == 0 {
        assert(a + b =~= a);
    } else {
        lemma_told_append(k, a, b.drop_last());
        assert((a + b).drop_last() =~= a + b.drop_last());
        assert((a + b).last() == b.last());
    }
}

proof fn lemma_told_one(k: InForce, c: CallView)
    ensures
        told_all(k, seq![c]) == told(k, c),
{
    assert(seq![c].drop_last() =~= Seq::<CallView>::empty());
    assert(told_all(k, Seq::<CallView>::empty()) == k);
}

/// The disguises of services, put into an empty table, are in it.
proof fn lemma_told_services(k: InForce, ws: Seq<WaylayView>)
    requires
        k.srv.len() == 0,
    ensures
        told_all(k, service_calls(ws)) == (InForce { srv: service_pairs(ws), ..k }),
    decreases ws.len(),
{
    let cs = service_calls(ws);
    if ws.len() == 0 {
        assert(k.srv =~= service_pairs(ws));
    } else {
        let init = ws.drop_last();
        lemma_told_services(k, init);
        assert(cs.drop_last() =~= service_calls(init));
        assert(service_pairs(ws) =~= service_pairs(init).push((ws.last().from, ws.last().to)));
    }
}

/// The first `n` rules on files, put into an empty table, are in it.
proof fn lemma_told_rows(k: InForce, rows: Seq<RowView>, n: nat)
    requires
        n <= rows.len(),
        k.rows.len() == 0,
    ensures
        told_all(k, Seq::new(n, |i: int| CallView::VfcRule(i as nat, rows[i]))) == (InForce {
            rows: rows.take(n as int),
            ..k
        }),
    decreases n,
{
    let cs = Seq::new(n, |i: int| CallView::VfcRule(i as nat, rows[i]));
    if n == 0 {
        assert(k.rows =~= rows.take(0));
    } else {
        let m = (n - 1) as nat;
        lemma_told_rows(k, rows, m);
        assert(cs.drop_last() =~= Seq::new(m, |i: int| CallView::VfcRule(i as nat, rows[i])));
        assert(rows.take(n as int) =~= rows.take(m as int).push(rows[m as int]));
    }
}

/// What sending the rules on files does.
proof fn lemma_told_row_calls(k: InForce, rows: Seq<RowView>, fg: Seq<char>)
    ensures
        told_all(k, row_calls(rows, fg)) == (InForce {
            rows: rows.take(at_most_rules(rows.len()) as int),
            fg,
            ..k
        }),
{
    let n = at_most_rules(rows.len());
    let a = seq![CallView::VfcRuleClear];
    let b = Seq::new(n, |i: int| CallView::VfcRule(i as nat, rows[i]));
    let c = CallView::VfcGlobCount(at_most_rules(global_rows(rows)));
    let d = CallView::VfcFg(fg);
    assert(row_calls(rows, fg) =~= a + b + seq![c] + seq![d]);
    lemma_told_append(k, a + b + seq![c], seq![d]);
    lemma_told_append(k, a + b, seq![c]);
    lemma_told_append(k, a, b);
    lemma_told_one(k, CallView::VfcRuleClear);
    let k1 = told(k, CallView::VfcRuleClear);
    lemma_told_rows(k1, rows, n);
    let k2 = told_all(k1, b);
    lemma_told_one(k2, c);
    lemma_told_one(told(k2, c), d);
}

/// Dropping the disguises of services, sending new ones, and turning them on or
/// off.
proof fn lemma_told_new_services(k: InForce, src: Seq<WaylayView>, on: bool)
    ensures
        told_all(
            k,
            seq![CallView::SrvClear] + service_calls(src) + seq![CallView::SrvActive(on)],
        ) == (InForce { srv: service_pairs(src), srv_on: on, ..k }),
{
    let a = seq![CallView::SrvClear];
    let b = service_calls(src);
    let c = CallView::SrvActive(on);
    lemma_told_append(k, a + b, seq![c]);
    lemma_told_append(k, a, b);
    lemma_told_one(k, CallView::SrvClear);
    let k1 = told(k, CallView::SrvClear);
    lemma_told_services(k1, src);
    lemma_told_one(told_all(k1, b), c);
}

/// An application without rules has no services and no properties disguised.
proof fn lemma_no_rules(ws: Seq<WaylayView>, pkg: Seq<char>)
    requires
        !has_rules(ws, pkg),
    ensures
        services_of(ws, pkg).len() == 0,
        properties_of(ws, pkg).len() == 0,
    decreases ws.len(),
{
    reveal(Seq::filter);
    if ws.len() > 0 {
        let init = ws.drop_last();
        assert forall|i: int| 0 <= i < init.len() implies (#[trigger] init[i]).pkg != pkg by {
            assert(init[i] == ws[i]);
        }
        lemma_no_rules(init, pkg);
        assert(ws[ws.len() - 1].pkg != pkg);
    }
}

/// What switching the services does.
proof fn lemma_services_switched(st: StateView, k: InForce, pkg: Seq<char>, ws: Seq<WaylayView>)
    requires
        mirrors(st, k, ws),
    ensures
        ({
            let k2 = told_all(k, services_switched(st, pkg, ws));
            &&& k2.services() == service_pairs(services_of(ws, pkg))
            &&& k2 == (InForce { srv: k2.srv, srv_on: k2.srv_on, ..k })
        }),
{
    let src = services_of(ws, pkg);
    if has_rules(ws, pkg) {
        if pkg != st.fg || !st.srv {
            lemma_told_new_services(k, src, true);
        }
    } else {
        lemma_no_rules(ws, pkg);
        assert(service_pairs(src) =~= Seq::<(Seq<char>, Seq<char>)>::empty());
        lemma_told_one(k, CallView::SrvActive(false));
    }
}

/// What undoing the properties that are in force does.
proof fn lemma_undone(st: StateView, k: InForce, ws: Seq<WaylayView>)
    requires
        mirrors(st, k, ws),
        st.prop,
    ensures
        told_all(k, seq![CallView::PropFileApply(false)]) == (InForce {
            applied: Set::empty(),
            ..k
        }),
{
    lemma_told_one(k, CallView::PropFileApply(false));
    assert(k.applied.difference(k.props.to_set()) =~= Set::empty());
}

/// What putting properties in force does where none are.
proof fn lemma_put(k: InForce, props: Seq<(Seq<char>, Seq<char>)>)
    requires
        k.applied == Set::<(Seq<char>, Seq<char>)>::empty(),
    ensures
        told_all(k, seq![CallView::SetPropRules(props), CallView::PropFileApply(true)]) == (InForce {
            props,
            applied: props.to_set(),
            ..k
        }),
{
    let a = CallView::SetPropRules(props);
    let b = CallView::PropFileApply(true);
    assert(seq![a, b] =~= seq![a] + seq![b]);
    lemma_told_append(k, seq![a], seq![b]);
    lemma_told_one(k, a);
    lemma_told_one(told(k, a), b);
    assert(k.applied.union(props.to_set()) =~= props.to_set());
}

/// What switching the properties does.
proof fn lemma_properties_switched(st: StateView, k: InForce, pkg: Seq<char>, ws: Seq<WaylayView>)
    requires
        mirrors(st, k, ws),
    ensures
        ({
            let k2 = told_all(k, properties_switched(st, pkg, ws));
            let props = properties_of(ws, pkg);
            &&& k2.applied == props.to_set()
            &&& props.len() > 0 ==> k2.props == props
            &&& k2 == (InForce { props: k2.props, applied: k2.applied, ..k })
        }),
{
    let props = properties_of(ws, pkg);
    let want = props.len() > 0;
    let undo = if st.prop && (pkg != st.fg || !want) {
        seq![CallView::PropFileApply(false)]
    } else {
        seq![]
    };
    let put = if want && (pkg != st.fg || !st.prop) {
        seq![CallView::SetPropRules(props), CallView::PropFileApply(true)]
    } else {
        seq![]
    };
    assert(properties_switched(st, pkg, ws) == undo + put);
    lemma_told_append(k, undo, put);
    assert(told_all(k, Seq::<CallView>::empty()) == k);
    let k1 = told_all(k, undo);
    if st.prop && (pkg != st.fg || !want) {
        lemma_undone(st, k, ws);
    }
    if put.len() > 0 {
        lemma_put(k1, props);
    } else {
        assert(told_all(k1, Seq::<CallView>::empty()) == k1);
    }
    if !want {
        assert(props.to_set() =~= Set::empty());
    }
}

/// An application that comes to the foreground: what is in force is what it is
/// to have, and the state tells it.
proof fn lemma_foregrounded(st: StateView, k: InForce, pkg: Seq<char>, ws: Seq<WaylayView>)
    requires
        mirrors(st, k, ws),
        all_named(ws),
    ensures
        ({
            let (st2, calls) = foregrounded(st, pkg, ws);
            let k2 = told_all(k, calls);
            &&& mirrors(st2, k2, ws)
            &&& st2.kpm == st.kpm
            &&& st.kpm ==> k2.fg == pkg && k2.services() == service_pairs(services_of(ws, pkg))
                && k2.applied == properties_of(ws, pkg).to_set()
        }),
{
    if st.kpm {
        let a = seq![CallView::VfcFg(pkg)];
        let b = services_switched(st, pkg, ws);
        let c = properties_switched(st, pkg, ws);
        lemma_told_append(k, a + b, c);
        lemma_told_append(k, a, b);
        lemma_told_one(k, CallView::VfcFg(pkg));
        let k1 = told_all(k, a);
        assert(mirrors(st, k1, ws));
        lemma_services_switched(st, k1, pkg, ws);
        let k2 = told_all(k1, b);
        lemma_properties_switched(st, k1, pkg, ws);
        lemma_props_apart(k1, k2, c);
        if !has_rules(ws, pkg) {
            lemma_no_rules(ws, pkg);
            assert(service_pairs(services_of(ws, pkg)) =~= Seq::<(Seq<char>, Seq<char>)>::empty());
        }
        if pkg.len() == 0 {
            assert(!has_rules(ws, pkg));
        }
        if properties_of(ws, pkg).len() == 0 {
            assert(properties_of(ws, pkg).to_set() =~= Set::empty());
        }
    }
}

/// Only disguises of properties are told of.
pub open spec fn only_properties(cs: Seq<CallView>) -> bool {
    forall|i: int|
        0 <= i < cs.len() ==> (#[trigger] cs[i]) is SetPropRules || cs[i] is PropFileApply
}

/// Telling of properties alone does not look at the services.
proof fn lemma_props_apart(a: InForce, b: InForce, cs: Seq<CallView>)
    requires
        b == (InForce { srv: b.srv, srv_on: b.srv_on, ..a }),
        only_properties(cs),
    ensures
        told_all(b, cs) == (InForce { srv: b.srv, srv_on: b.srv_on, ..told_all(a, cs) }),
    decreases cs.len(),
{
    if cs.len() > 0 {
        let init = cs.drop_last();
        assert forall|i: int| 0 <= i < init.len() implies (#[trigger] init[i]) is SetPropRules
            || init[i] is PropFileApply by {
            assert(init[i] == cs[i]);
        }
        lemma_props_apart(a, b, init);
        assert(cs[cs.len() - 1] == cs.last());
    }
}

/// Only the application in the foreground is disguised: after any row of
/// applications that come to the foreground, the disguises of services and of
/// properties in force are just those of the last one, and the module knows it.
pub proof fn only_the_foreground_is_disguised(
    st: StateView,
    k: InForce,
    pkgs: Seq<Seq<char>>,
    ws: Seq<WaylayView>,
)
    requires
        st.kpm,
        mirrors(st, k, ws),
        all_named(ws),
    ensures
        ({
            let (st2, k2) = after_foregrounds(st, k, pkgs, ws);
            &&& st2.kpm
            &&& mirrors(st2, k2, ws)
            &&& pkgs.len() > 0 ==> {
                &&& k2.fg == pkgs.last()
                &&& k2.services() == service_pairs(services_of(ws, pkgs.last()))
                &&& k2.applied == properties_of(ws, pkgs.last()).to_set()
            }
        }),
    decreases pkgs.len(),
{
    if pkgs.len() > 0 {
        only_the_foreground_is_disguised(st, k, pkgs.drop_last(), ws);
        let (st1, k1) = after_foregrounds(st, k, pkgs.drop_last(), ws);
        lemma_foregrounded(st1, k1, pkgs.last(), ws);
    }
}

/// Meeting a request to arm or disarm the module.
proof fn lemma_arm(
    st: StateView,
    k: InForce,
    arm: bool,
    found: bool,
    old_ws: Seq<WaylayView>,
    ws: Seq<WaylayView>,
)
    requires
        mirrors(st, k, old_ws),
    ensures
        ({
            let (st2, calls) = arm_set(st, arm, found, ws);
            let k2 = told_all(k, calls);
            &&& mirrors(st2, k2, old_ws)
            &&& st2.fg == st.fg
        }),
{
    let rows = by_package(file_rows(ws));
    let kpm = st.kpm || (arm && found);
    assert(told_all(k, Seq::<CallView>::empty()) == k);
    if kpm && arm {
        let a = row_calls(rows, st.fg);
        let b = seq![
            CallView::Arm,
            CallView::SyncRedPath,
            CallView::VfcApply,
            CallView::Armed(true),
        ];
        lemma_told_append(k, a, b);
        lemma_told_row_calls(k, rows, st.fg);
        let k1 = told_all(k, a);
        lemma_told_neutral(k1, b);
    } else if kpm {
        let b = seq![CallView::Disarm, CallView::Armed(false)];
        assert(arm_set(st, arm, found, ws).1 =~= b);
        assert(b =~= seq![CallView::Disarm] + seq![CallView::Armed(false)]);
        lemma_told_append(k, seq![CallView::Disarm], seq![CallView::Armed(false)]);
        lemma_told_one(k, CallView::Disarm);
        lemma_told_one(told(k, CallView::Disarm), CallView::Armed(false));
    }
}

/// Nothing of this puts disguises in force.
pub open spec fn is_neutral(c: CallView) -> bool {
    c is Arm || c is SyncRedPath || c is VfcApply || c is Armed || c is EnsurePropMaps
        || c is RebuildPkgByUid
}

proof fn lemma_told_neutral(k: InForce, cs: Seq<CallView>)
    requires
        forall|i: int| 0 <= i < cs.len() ==> is_neutral(#[trigger] cs[i]),
    ensures
        told_all(k, cs) == k,
    decreases cs.len(),
{
    if cs.len() > 0 {
        let init = cs.drop_last();
        assert forall|i: int| 0 <= i < init.len() implies is_neutral(#[trigger] init[i]) by {
            assert(init[i] == cs[i]);
        }
        lemma_told_neutral(k, init);
        assert(is_neutral(cs[cs.len() - 1]));
    }
}

/// The application in the foreground gets its new disguises where no disguises
/// of properties are in force.
proof fn lemma_redisguised(st: StateView, k: InForce, ws: Seq<WaylayView>)
    requires
        st.kpm,
        st.fg.len() > 0,
        k.applied == Set::<(Seq<char>, Seq<char>)>::empty(),
    ensures
        ({
            let (st2, calls) = redisguised(st, ws);
            let k2 = told_all(k, calls);
            &&& mirrors(st2, k2, ws)
            &&& k2.services() == service_pairs(services_of(ws, st.fg))
            &&& k2.applied == properties_of(ws, st.fg).to_set()
        }),
{
    let src = services_of(ws, st.fg);
    let props = properties_of(ws, st.fg);
    let a = seq![CallView::SrvClear] + service_calls(src) + seq![
        CallView::SrvActive(src.len() > 0),
    ];
    let b = if props.len() > 0 {
        seq![CallView::SetPropRules(props), CallView::PropFileApply(true)]
    } else {
        seq![CallView::PropFileApply(false)]
    };
    assert(redisguised(st, ws).1 =~= a + b);
    lemma_told_append(k, a, b);
    lemma_told_new_services(k, src, src.len() > 0);
    let k1 = told_all(k, a);
    if props.len() > 0 {
        lemma_put(k1, props);
    } else {
        lemma_told_one(k1, CallView::PropFileApply(false));
        assert(k1.applied.difference(k1.props.to_set()) =~= Set::empty());
        assert(props.to_set() =~= Set::empty());
    }
    if src.len() == 0 {
        assert(service_pairs(src) =~= Seq::<(Seq<char>, Seq<char>)>::empty());
    }
}

/// The disguises have changed.
proof fn lemma_rules_changed(
    st: StateView,
    k: InForce,
    vfc: bool,
    old_ws: Seq<WaylayView>,
    ws: Seq<WaylayView>,
)
    requires
        mirrors(st, k, old_ws),
    ensures
        ({
            let (st2, calls) = rules_changed(st, vfc, ws);
            let k2 = told_all(k, calls);
            &&& mirrors(st2, k2, ws)
            &&& st2.kpm == st.kpm && st2.fg == st.fg
            &&& st.kpm && st.fg.len() > 0 ==> {
                &&& k2.services() == service_pairs(services_of(ws, st.fg))
                &&& k2.applied == properties_of(ws, st.fg).to_set()
            }
        }),
{
    let u = undo_calls(st);
    let (st1, c1) = if vfc {
        synced(st, ws)
    } else {
        (st, seq![])
    };
    let t = seq![CallView::SyncRedPath, CallView::EnsurePropMaps, CallView::RebuildPkgByUid];
    let c2 = redisguised(st1, ws).1;
    assert(rules_changed(st, vfc, ws).1 == u + c1 + t + c2);
    lemma_told_append(k, u + c1 + t, c2);
    lemma_told_append(k, u + c1, t);
    lemma_told_append(k, u, c1);
    let k1 = told_all(k, u);
    assert(told_all(k, Seq::<CallView>::empty()) == k);
    if st.kpm && st.prop {
        lemma_undone(st, k, old_ws);
    }
    assert(k1 == (InForce { applied: Set::empty(), ..k }));
    let k2 = told_all(k1, c1);
    assert(told_all(k1, Seq::<CallView>::empty()) == k1);
    if c1.len() > 0 {
        lemma_told_row_calls(k1, by_package(file_rows(ws)), st.fg);
    }
    assert(k2 == (InForce { rows: k2.rows, fg: k2.fg, ..k1 }));
    lemma_told_neutral(k2, t);
    if st.kpm && st.fg.len() > 0 {
        lemma_redisguised(st1, k2, ws);
    } else {
        assert(c2 =~= Seq::<CallView>::empty());
        assert(told_all(k2, Seq::<CallView>::empty()) == k2);
    }
}

/// A reload of the rules keeps to it: the application in the foreground has its
/// new disguises and no others in force, and the state still tells what is in
/// force.
pub proof fn reloading_keeps_to_the_foreground(
    st: StateView,
    k: InForce,
    req: int,
    found: bool,
    changed: bool,
    vfc: bool,
    old_ws: Seq<WaylayView>,
    ws: Seq<WaylayView>,
)
    requires
        mirrors(st, k, old_ws),
        !changed ==> ws == old_ws,
    ensures
        ({
            let (st2, calls) = reloaded(st, req, found, changed, vfc, ws);
            let k2 = told_all(k, calls);
            &&& mirrors(st2, k2, ws)
            &&& changed && st2.kpm && st2.fg.len() > 0 ==> {
                &&& k2.services() == service_pairs(services_of(ws, st2.fg))
                &&& k2.applied == properties_of(ws, st2.fg).to_set()
            }
        }),
{
    let (st1, c1) = arm_request_met(st, req, found, ws);
    let k1 = told_all(k, c1);
    assert(told_all(k, Seq::<CallView>::empty()) == k);
    if req == 1 || req == -1 {
        lemma_arm(st, k, req == 1, found, old_ws, ws);
    }
    assert(mirrors(st1, k1, old_ws));
    if changed {
        let c2 = rules_changed(st1, vfc, ws).1;
        lemma_told_append(k, c1, c2);
        lemma_rules_changed(st1, k1, vfc, old_ws, ws);
    }
}

/// A module that is armed has all rules on files, as many as fit, whatever was
/// sent before, and knows the application in the foreground.
pub proof fn armed_module_has_the_rules(
    st: StateView,
    k: InForce,
    found: bool,
    ws: Seq<WaylayView>,
)
    requires
        st.kpm || found,
    ensures
        ({
            let (st2, calls) = arm_set(st, true, found, ws);
            let rows = by_package(file_rows(ws));
            let k2 = told_all(k, calls);
            &&& st2.kpm
            &&& k2.fg == st.fg
            &&& k2.rows == rows.take(at_most_rules(rows.len()) as int)
        }),
{
    let rows = by_package(file_rows(ws));
    let a = row_calls(rows, st.fg);
    let b = seq![CallView::Arm, CallView::SyncRedPath, CallView::VfcApply, CallView::Armed(true)];
    lemma_told_append(k, a, b);
    lemma_told_row_calls(k, rows, st.fg);
    lemma_told_neutral(told_all(k, a), b);
}

/// The rules that are read from a file all name an application.
pub proof fn loaded_rules_are_named(lines: Seq<Seq<char>>)
    ensures
        all_named(waylay::rules_of(lines)),
    decreases lines.len(),
{
    if lines.len() > 0 {
        loaded_rules_are_named(lines.drop_last());
    }
}

/// At the start nothing is disguised, and the state tells it.
pub proof fn nothing_is_disguised_at_first(st: StateView, k: InForce, ws: Seq<WaylayView>)
    requires
        !st.srv,
        !st.prop,
        !k.srv_on,
        k.applied == Set::<(Seq<char>, Seq<char>)>::empty(),
    ensures
        mirrors(st, k, ws),
{
}

} // verus!
