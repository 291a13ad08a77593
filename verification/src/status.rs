//! What the web front end shows.
use vstd::prelude::*;

use crate::cache;
use crate::cache::ProcCache;
use crate::config;
use crate::config::{AffinityRule, AppConfig};
use crate::cpuset;
use crate::cpuset::{CpuSet, CpuTopology};
use crate::order;
use crate::text;

verus! {

broadcast use {vstd::string::group_string_axioms, vstd::std_specs::hash::group_hash_axioms};

/// For so many nanoseconds after a look at the status page someone is taken to
/// be looking.
pub const WEB_ACTIVE_WINDOW: u64 = 6_000_000_000;

/// When the status page was last looked at.
pub struct WebActivity {
    pub last: Option<u64>,
}

/// The status page is being looked at.
pub fn mark_web_active(a: &mut WebActivity, now: u64)
    ensures
        final(a).last == Some(now),
{
    a.last = Some(now);
}

/// Whether someone is looking at the status page.
pub fn web_active(a: &WebActivity, now: u64) -> (r: bool)
    ensures
        r == (a.last matches Some(t) && now - t < WEB_ACTIVE_WINDOW),
{
    match a.last {
        Some(t) => now <= t || now - t < WEB_ACTIVE_WINDOW,
        None => false,
    }
}

/// Whether the main loop can be told that the mode has changed: there is a
/// descriptor to write to.
pub fn notify_mode_switch(fd: i32) -> (r: bool)
    ensures
        r == (fd >= 0),
{
    fd >= 0
}

/// What the status page shows of the placed threads.
pub struct WebStats {
    pub rules: usize,
    pub pkgs: usize,
    pub hit_pkgs: usize,
    /// The packages that have placed threads.
    pub hit_list: Vec<String>,
    pub threads: usize,
    pub kpm: bool,
    /// Seconds since the start.
    pub uptime: u64,
}

impl WebStats {
    /// Nothing has been placed.
    pub fn none() -> (r: WebStats)
        ensures
            r.rules == 0,
            r.pkgs == 0,
            r.hit_pkgs == 0,
            r.hit_list@.len() == 0,
            r.threads == 0,
            !r.kpm,
            r.uptime == 0,
    {
        WebStats {
            rules: 0,
            pkgs: 0,
            hit_pkgs: 0,
            hit_list: Vec::new(),
            threads: 0,
            kpm: false,
            uptime: 0,
        }
    }
}

/// The number of placed threads, the number of their packages, and the packages.
pub fn cache_stats(c: &ProcCache) -> (r: (usize, usize, Vec<String>))
    requires
        c.wf(),
    ensures
        r.0 == c.tasks@.len(),
        r.1 == r.2@.len(),
        order::ascending(text::owned(r.2@)),
        text::owned(r.2@).to_set() == cache::hit_packages(c.tasks@),
{
    let hit_list = c.hit_package_list();
    let n: usize = hit_list.len();
    (c.tasks.len(), n, hit_list)
}

/// The name of a set of CPUs: that of a tier of cores, or its ranges.
pub open spec fn spec_text(cpus: Set<int>, topo: CpuTopology) -> Seq<char> {
    if cpus == Set::<int>::empty() {
        cpuset::range_text(cpus)
    } else if cpus == topo.e_core@ {
        "e-core"@
    } else if cpus == topo.p_core@ {
        "p-core"@
    } else if cpus == topo.hp_core@ {
        "hp-core"@
    } else if cpus == topo.present_cpus@ {
        "all-core"@
    } else {
        cpuset::range_text(cpus)
    }
}

/// The name of a set of CPUs.
pub fn spec_name(cpus: &CpuSet, topo: &CpuTopology) -> (r: String)
    ensures
        r@ == spec_text(cpus@, *topo),
{
    if cpus.count() > 0 {
        assert(cpus@ != Set::<int>::empty());
        if cpus.same_as(&topo.e_core) {
            return "e-core".to_owned();
        }
        if cpus.same_as(&topo.p_core) {
            return "p-core".to_owned();
        }
        if cpus.same_as(&topo.hp_core) {
            return "hp-core".to_owned();
        }
        if cpus.same_as(&topo.present_cpus) {
            return "all-core".to_owned();
        }
    } else {
        assert(cpus@ =~= Set::<int>::empty());
    }
    cpus.to_range_string()
}

/// The name that is shown for a set of CPUs stands for that set.
pub proof fn shown_names_read_back(cpus: Set<int>, topo: CpuTopology)
    requires
        cpus.subset_of(cpuset::cpu_numbers()),
        cpus.subset_of(topo.present_cpus@),
    ensures
        cpuset::spec_cpus(spec_text(cpus, topo), topo) == cpus,
{
    let name = spec_text(cpus, topo);
    reveal_strlit("e-core");
    reveal_strlit("p-core");
    reveal_strlit("hp-core");
    reveal_strlit("all-core");
    assert("e-core"@[0] != "p-core"@[0]);
    assert("hp-core"@.len() != "all-core"@.len());
    cpuset::names_are_specs("e-core"@, topo);
    cpuset::names_are_specs("p-core"@, topo);
    cpuset::names_are_specs("hp-core"@, topo);
    cpuset::names_are_specs("all-core"@, topo);
    cpuset::ranges_are_specs(cpus, topo);
    assert(cpus.intersect(topo.present_cpus@) =~= cpus);
}

/// The rules of a package, as the front end lists them.
pub struct RuleGroup {
    pub pkg: String,
    /// Thread patterns with the names of their CPUs.
    pub items: Vec<(String, String)>,
}

/// The rules of a package, as contracts speak of them.
#[verifier::ext_equal]
pub ghost struct GroupView {
    pub pkg: Seq<char>,
    pub items: Seq<(Seq<char>, Seq<char>)>,
}

/// The contents of a list of items.
pub open spec fn item_views(v: Seq<(String, String)>) -> Seq<(Seq<char>, Seq<char>)> {
    v.map_values(|p: (String, String)| (p.0@, p.1@))
}

impl View for RuleGroup {
    type V = GroupView;

    open spec fn view(&self) -> GroupView {
        GroupView { pkg: self.pkg@, items: item_views(self.items@) }
    }
}

/// The contents of a list of groups.
pub open spec fn group_views(v: Seq<RuleGroup>) -> Seq<GroupView> {
    v.map_values(|g: RuleGroup| g@)
}

/// The group of a package, from `i` on; their number where there is none.
pub open spec fn group_at(gs: Seq<GroupView>, pkg: Seq<char>, i: int) -> int
    decreases gs.len() - i,
{
    if i >= gs.len() {
        gs.len() as int
    } else if gs[i].pkg == pkg {
        i
    } else {
        group_at(gs, pkg, i + 1)
    }
}

/// With one rule more: in the group of its package, which is a new one where
/// there was none.
pub open spec fn grouped(gs: Seq<GroupView>, pkg: Seq<char>, item: (Seq<char>, Seq<char>)) -> Seq<
    GroupView,
> {
    let k = group_at(gs, pkg, 0);
    if k < gs.len() {
        gs.update(k, GroupView { pkg: gs[k].pkg, items: gs[k].items.push(item) })
    } else {
        gs.push(GroupView { pkg, items: seq![item] })
    }
}

/// The first `n` rules by package, in the order in which the packages come.
pub open spec fn groups_of(rules: Seq<config::RuleView>, n: nat, topo: CpuTopology) -> Seq<
    GroupView,
>
    decreases n,
{
    if n == 0 {
        seq![]
    } else {
        let r = rules[n - 1];
        grouped(
            groups_of(rules, (n - 1) as nat, topo),
            r.pkg,
            (r.thread, spec_text(r.cpus, topo)),
        )
    }
}

proof fn lemma_group_at(gs: Seq<GroupView>, pkg: Seq<char>, i: int)
    requires
        0 <= i <= gs.len(),
    ensures
        i <= group_at(gs, pkg, i) <= gs.len(),
        group_at(gs, pkg, i) < gs.len() ==> gs[group_at(gs, pkg, i)].pkg == pkg,
        group_at(gs, pkg, i) == gs.len() ==> forall|j: int|
            i <= j < gs.len() ==> (#[trigger] gs[j]).pkg != pkg,
    decreases gs.len() - i,
{
    if i < gs.len() && gs[i].pkg != pkg {
        lemma_group_at(gs, pkg, i + 1);
    }
}

fn add_item(groups: &mut Vec<RuleGroup>, rule: &AffinityRule, topo: &CpuTopology)
    ensures
        group_views(final(groups)@) == grouped(
            group_views(old(groups)@),
            rule@.pkg,
            (rule@.thread, spec_text(rule@.cpus, *topo)),
        ),
{
    let ghost gs = group_views(groups@);
    let ghost item = (rule@.thread, spec_text(rule@.cpus, *topo));
    let mut k: usize = 0;
    while k < groups.len() && !text::same(groups[k].pkg.as_str(), rule.pkg.as_str())
        invariant
            k <= groups.len(),
            gs == group_views(groups@),
            group_at(gs, rule@.pkg, 0) == group_at(gs, rule@.pkg, k as int),
        decreases groups.len() - k,
    {
        assert(gs[k as int] == groups@[k as int]@);
        k += 1;
    }
    let name = spec_name(&rule.cpus, topo);
    if k < groups.len() {
        assert(gs[k as int] == groups@[k as int]@);
        let mut items: Vec<(String, String)> = Vec::new();
        let mut i: usize = 0;
        let ghost old_items = groups@[k as int].items@;
        proof {
            assert(item_views(items@) =~= item_views(old_items).take(0));
        }
        while i < groups[k].items.len()
            invariant
                k < groups.len(),
                i <= groups@[k as int].items@.len(),
                old_items == groups@[k as int].items@,
                gs == group_views(groups@),
                item_views(items@) == item_views(old_items).take(i as int),
            decreases groups@[k as int].items@.len() - i,
        {
            let it = &groups[k].items[i];
            let ghost before = items@;
            items.push((it.0.clone(), it.1.clone()));
            proof {
                assert(*it == old_items[i as int]);
                assert(item_views(items@) =~= item_views(before).push((it.0@, it.1@)));
                assert(item_views(old_items)[i as int] == (it.0@, it.1@));
                assert(item_views(items@) =~= item_views(old_items).take(i + 1));
            }
            i += 1;
        }
        let ghost before = items@;
        items.push((rule.thread.clone(), name));
        proof {
            assert(item_views(old_items).take(i as int) =~= item_views(old_items));
            assert(item_views(items@) =~= item_views(old_items).push(item));
        }
        let pkg = groups[k].pkg.clone();
        groups.set(k, RuleGroup { pkg, items });
        proof {
            assert(group_views(groups@) =~= grouped(gs, rule@.pkg, item));
        }
    } else {
        let mut items: Vec<(String, String)> = Vec::new();
        items.push((rule.thread.clone(), name));
        proof {
            assert(item_views(items@) =~= seq![item]);
        }
        groups.push(RuleGroup { pkg: rule.pkg.clone(), items });
        proof {
            assert(group_views(groups@) =~= grouped(gs, rule@.pkg, item));
        }
    }
}

/// The rules by package; none before there is a configuration.
pub fn rule_groups(cfg: Option<&AppConfig>) -> (r: Vec<RuleGroup>)
    ensures
        group_views(r@) == (match cfg {
            Some(c) => groups_of(config::rule_views(c.rules@), c.rules@.len(), c.topo),
            None => seq![],
        }),
{
    let mut r: Vec<RuleGroup> = Vec::new();
    proof {
        assert(group_views(r@) =~= Seq::<GroupView>::empty());
    }
    if let Some(c) = cfg {
        let ghost vs = config::rule_views(c.rules@);
        let mut i: usize = 0;
        while i < c.rules.len()
            invariant
                i <= c.rules.len(),
                vs == config::rule_views(c.rules@),
                group_views(r@) == groups_of(vs, i as nat, c.topo),
            decreases c.rules.len() - i,
        {
            assert(vs[i as int] == c.rules@[i as int]@);
            add_item(&mut r, &c.rules[i], &c.topo);
            i += 1;
        }
    }
    r
}

/// Each package has one group.
pub proof fn groups_are_apart(rules: Seq<config::RuleView>, n: nat, topo: CpuTopology)
    ensures
        forall|i: int, j: int|
            0 <= i < j < groups_of(rules, n, topo).len() ==> (#[trigger] groups_of(
                rules,
                n,
                topo,
            )[i]).pkg != (#[trigger] groups_of(rules, n, topo)[j]).pkg,
    decreases n,
{
    if n > 0 {
        groups_are_apart(rules, (n - 1) as nat, topo);
        let gs = groups_of(rules, (n - 1) as nat, topo);
        lemma_group_at(gs, rules[n - 1].pkg, 0);
    }
}

/// The group of `pkg` lists the item.
pub open spec fn lists(gs: Seq<GroupView>, pkg: Seq<char>, item: (Seq<char>, Seq<char>)) -> bool {
    exists|g: int| 0 <= g < gs.len() && (#[trigger] gs[g]).pkg == pkg && gs[g].items.contains(item)
}

/// What one more rule adds to the groups.
proof fn lemma_grouped(
    gs: Seq<GroupView>,
    pkg: Seq<char>,
    item: (Seq<char>, Seq<char>),
    p: Seq<char>,
    x: (Seq<char>, Seq<char>),
)
    ensures
        lists(grouped(gs, pkg, item), p, x) <==> lists(gs, p, x) || (p == pkg && x == item),
{
    lemma_group_at(gs, pkg, 0);
    let k = group_at(gs, pkg, 0);
    let all = grouped(gs, pkg, item);
    if lists(gs, p, x) {
        let g = choose|g: int|
            0 <= g < gs.len() && (#[trigger] gs[g]).pkg == p && gs[g].items.contains(x);
        assert(all[g].pkg == p);
        let y = gs[g].items.index_of(x);
        assert(all[g].items[y] == x);
    }
    if p == pkg && x == item {
        let g = if k < gs.len() {
            k
        } else {
            gs.len() as int
        };
        assert(all[g].pkg == pkg);
        assert(all[g].items[all[g].items.len() - 1] == item);
    }
    if lists(all, p, x) {
        let g = choose|g: int|
            0 <= g < all.len() && (#[trigger] all[g]).pkg == p && all[g].items.contains(x);
        let y = all[g].items.index_of(x);
        if g == k {
            if k < gs.len() {
                if y < gs[k].items.len() {
                    assert(gs[k].items[y] == x);
                    assert(gs[k].pkg == p);
                } else {
                    assert(x == item);
                }
            } else {
                assert(x == item);
            }
        } else {
            assert(all[g] == gs[g]);
            assert(gs[g].pkg == p);
        }
    }
}

/// Every rule is shown in the group of its package, with its thread and the name
/// of its CPUs, and nothing else is shown.
pub proof fn every_rule_is_shown(
    rules: Seq<config::RuleView>,
    n: nat,
    topo: CpuTopology,
    pkg: Seq<char>,
    item: (Seq<char>, Seq<char>),
)
    requires
        n <= rules.len(),
    ensures
        lists(groups_of(rules, n, topo), pkg, item) <==> exists|i: int|
            0 <= i < n && (#[trigger] rules[i]).pkg == pkg && item == (
                rules[i].thread,
                spec_text(rules[i].cpus, topo),
            ),
    decreases n,
{
    if n > 0 {
        let r = rules[n - 1];
        every_rule_is_shown(rules, (n - 1) as nat, topo, pkg, item);
        lemma_grouped(
            groups_of(rules, (n - 1) as nat, topo),
            r.pkg,
            (r.thread, spec_text(r.cpus, topo)),
            pkg,
            item,
        );
    }
}

/// Seconds between two looks, at least one.
pub open spec fn at_least_one(n: u64) -> u64 {
    if n >= 1 {
        n
    } else {
        1
    }
}

/// What the status page shows.
pub struct StatusReport {
    pub mode: &'static str,
    pub interval: u64,
    pub e_core: String,
    pub p_core: String,
    pub hp_core: String,
    pub all_core: String,
    pub cores: usize,
    pub cpuset_enabled: bool,
}

/// What the status page shows of the machine; nothing of it before there is a
/// configuration.
pub fn status_report(kpm: bool, interval: u64, cfg: Option<&AppConfig>) -> (r: StatusReport)
    ensures
        r.mode@ == (if kpm {
            "kpm"@
        } else {
            "proc"@
        }),
        r.interval == at_least_one(interval),
        match cfg {
            Some(c) => {
                &&& r.e_core@ == cpuset::range_text(c.topo.e_core@)
                &&& r.p_core@ == cpuset::range_text(c.topo.p_core@)
                &&& r.hp_core@ == cpuset::range_text(c.topo.hp_core@)
                &&& r.all_core@ == c.topo.present_str@
                &&& r.cores == c.topo.present_cpus@.len()
                &&& r.cpuset_enabled == c.topo.cpuset_enabled
            },
            None => {
                &&& r.e_core@.len() == 0
                &&& r.p_core@.len() == 0
                &&& r.hp_core@.len() == 0
                &&& r.all_core@.len() == 0
                &&& r.cores == 0
                &&& !r.cpuset_enabled
            },
        },
{
    let mode: &'static str = if kpm {
        "kpm"
    } else {
        "proc"
    };
    let interval: u64 = if interval >= 1 {
        interval
    } else {
        1
    };
    match cfg {
        Some(c) => StatusReport {
            mode,
            interval,
            e_core: c.topo.e_core.to_range_string(),
            p_core: c.topo.p_core.to_range_string(),
            hp_core: c.topo.hp_core.to_range_string(),
            all_core: c.topo.present_str.clone(),
            cores: c.topo.present_cpus.count(),
            cpuset_enabled: c.topo.cpuset_enabled,
        },
        None => StatusReport {
            mode,
            interval,
            e_core: String::new(),
            p_core: String::new(),
            hp_core: String::new(),
            all_core: String::new(),
            cores: 0,
            cpuset_enabled: false,
        },
    }
}

/// What is shown for a refresh-rate mode; `other` for one without a name.
pub fn mode_label<'a>(mode: i32, other: &'a str) -> (r: &'a str)
    ensures
        r@ == (if mode == 0 {
            "120Hz"@
        } else if mode == 1 {
            "60Hz"@
        } else if mode == 2 {
            "90Hz"@
        } else {
            other@
        }),
{
    if mode == 0 {
        "120Hz"
    } else if mode == 1 {
        "60Hz"
    } else if mode == 2 {
        "90Hz"
    } else {
        other
    }
}

} // verus!
