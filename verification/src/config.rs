//! The rule file as a whole: which rules it holds, and what a change of it
//! means for the daemon.
use vstd::prelude::*;

use crate::cpuset;
use crate::cpuset::{CpuSet, CpuTopology};
use crate::grammar;
use crate::grammar::OuterLine;
use crate::names::{NameMap, NameSet};
use crate::refresh_lines;
use crate::refresh_lines::RefreshTriple;
use crate::text;

verus! {

broadcast use vstd::string::group_string_axioms;

/// CPUs, and maybe utilisation clamps, for a package or for those of its
/// threads that a pattern matches.
pub struct AffinityRule {
    pub pkg: String,
    /// The pattern for thread names; empty for the whole package.
    pub thread: String,
    /// The cpuset directory for the rule's CPUs; empty where there is none.
    pub cpuset_dir: String,
    pub cpus: CpuSet,
    /// The lower clamp, 0 to 1024; -1 where it is not set.
    pub util_min: i32,
    /// The upper clamp, 0 to 1024; -1 where it is not set.
    pub util_max: i32,
}

/// The contents of a rule as it stands in the file.
#[verifier::ext_equal]
pub ghost struct RuleView {
    pub pkg: Seq<char>,
    pub thread: Seq<char>,
    pub cpus: Set<int>,
    pub util_min: int,
    pub util_max: int,
}

impl View for AffinityRule {
    type V = RuleView;

    open spec fn view(&self) -> RuleView {
        RuleView {
            pkg: self.pkg@,
            thread: self.thread@,
            cpus: self.cpus@,
            util_min: self.util_min as int,
            util_max: self.util_max as int,
        }
    }
}

/// The contents of a sequence of rules.
pub open spec fn rule_views(rules: Seq<AffinityRule>) -> Seq<RuleView> {
    rules.map_values(|r: AffinityRule| r@)
}

/// No character is an ASCII control character.
pub open spec fn is_printable(s: Seq<char>) -> bool {
    forall|i: int| 0 <= i < s.len() ==> !is_control(#[trigger] s[i])
}

/// An ASCII control character.
pub open spec fn is_control(c: char) -> bool {
    (c as u32) < 0x20 || c as u32 == 0x7f
}

/// Names that a rule can have.
pub open spec fn names_fit(pkg: Seq<char>, thread: Seq<char>) -> bool {
    &&& 0 < pkg.len()
    &&& text::byte_len(pkg) < grammar::MAX_PKG_LEN
    &&& text::byte_len(thread) < grammar::MAX_THREAD_LEN
    &&& is_printable(pkg)
    &&& is_printable(thread)
}

/// The rule that a package, a thread pattern and a value make, if they make one.
pub open spec fn rule_for(
    topo: CpuTopology,
    pkg: Seq<char>,
    thread: Seq<char>,
    value: Seq<char>,
) -> Option<RuleView> {
    let (cpus, util_min, util_max) = grammar::rule_spec(value);
    let set = cpuset::spec_cpus(cpus, topo);
    if !names_fit(pkg, thread) {
        None
    } else if cpus.len() == 0 {
        if util_min >= 0 || util_max >= 0 {
            Some(RuleView { pkg, thread, cpus: Set::empty(), util_min, util_max })
        } else {
            None
        }
    } else if grammar::has_spec_shape(cpus) && set != Set::<int>::empty() {
        Some(RuleView { pkg, thread, cpus: set, util_min, util_max })
    } else {
        None
    }
}

/// Whether no character is an ASCII control character.
pub fn printable(s: &str) -> (r: bool)
    ensures
        r == is_printable(s@),
{
    let cs = text::chars_of(s);
    let mut i: usize = 0;
    while i < cs.len()
        invariant
            i <= cs.len(),
            cs@ == s@,
            forall|j: int| 0 <= j < i ==> !is_control(#[trigger] s@[j]),
        decreases cs.len() - i,
    {
        let u: u32 = cs[i] as u32;
        if u < 0x20 || u == 0x7f {
            assert(is_control(s@[i as int]));
            return false;
        }
        i += 1;
    }
    true
}

/// Adds the rule that a package, a thread pattern and a value make; whether
/// they make one.
pub fn add_rule(
    rules: &mut Vec<AffinityRule>,
    topo: &CpuTopology,
    pkg: &str,
    thread: &str,
    cpus_spec: &str,
) -> (r: bool)
    ensures
        match rule_for(*topo, pkg@, thread@, cpus_spec@) {
            Some(v) => r && rule_views(final(rules)@) == rule_views(old(rules)@).push(v)
                && final(rules)@.last().cpuset_dir@.len() == 0 && final(rules)@.drop_last()
                == old(rules)@,
            None => !r && *final(rules) == *old(rules),
        },
{
    if pkg.is_empty() || text::byte_length(pkg) >= grammar::MAX_PKG_LEN || text::byte_length(thread)
        >= grammar::MAX_THREAD_LEN {
        return false;
    }
    if !printable(pkg) || !printable(thread) {
        return false;
    }
    let (cpus, util_min, util_max) = grammar::parse_rule_spec(cpus_spec);
    let mut set = CpuSet::new();
    if cpus.as_str().is_empty() {
        if util_min < 0 && util_max < 0 {
            return false;
        }
    } else {
        if !grammar::spec_like(cpus.as_str()) {
            return false;
        }
        set = cpuset::parse_cpu_spec(cpus.as_str(), topo);
        if set.count() == 0 {
            assert(set@ =~= Set::<int>::empty());
            return false;
        }
    }
    let ghost before = rules@;
    rules.push(
        AffinityRule {
            pkg: pkg.to_owned(),
            thread: thread.to_owned(),
            cpuset_dir: String::new(),
            cpus: set,
            util_min,
            util_max,
        },
    );
    proof {
        let v = rules@.last()@;
        assert(set@ != Set::<int>::empty() || cpus@.len() == 0);
        assert(rule_for(*topo, pkg@, thread@, cpus_spec@) == Some(v));
        assert(rule_views(rules@) =~= rule_views(before).push(v));
        assert(rules@.drop_last() =~= before);
    }
    true
}

/// How far the reading of a rule file has come.
#[verifier::ext_equal]
pub ghost struct LoadView {
    pub rules: Seq<RuleView>,
    /// The number of lines, or pairs of lines, that made no sense.
    pub fails: nat,
    pub globals: RefreshTriple,
    pub apps: Map<Seq<char>, RefreshTriple>,
    /// The package of the open block.
    pub cur: Seq<char>,
    /// The package whose block may open next; empty where there is none.
    pub pending: Seq<char>,
    pub in_block: bool,
}

impl LoadView {
    /// Before the first line.
    pub open spec fn start() -> LoadView {
        LoadView {
            rules: seq![],
            fails: 0,
            globals: refresh_lines::default_globals(),
            apps: Map::empty(),
            cur: seq![],
            pending: seq![],
            in_block: false,
        }
    }

    /// One more thing that made no sense.
    pub open spec fn failed(self) -> LoadView {
        LoadView { fails: self.fails + 1, ..self }
    }

    /// With the rule added, or a failure counted.
    pub open spec fn with_rule(
        self,
        topo: CpuTopology,
        pkg: Seq<char>,
        thread: Seq<char>,
        value: Seq<char>,
    ) -> LoadView {
        match rule_for(topo, pkg, thread, value) {
            Some(v) => LoadView { rules: self.rules.push(v), ..self },
            None => self.failed(),
        }
    }

    /// With the block closed.
    pub open spec fn closed(self) -> LoadView {
        LoadView { in_block: false, cur: seq![], ..self }
    }

    /// With a block open for a package.
    pub open spec fn opened(self, pkg: Seq<char>) -> LoadView {
        LoadView { in_block: true, cur: pkg, ..self }
    }

    /// A package that waited for its block in vain counts as a failure.
    pub open spec fn pending_dropped(self) -> LoadView {
        if self.pending.len() > 0 {
            self.failed()
        } else {
            self
        }
    }

    /// With no package waiting for its block.
    pub open spec fn no_pending(self) -> LoadView {
        LoadView { pending: seq![], ..self }
    }
}

/// What a line inside a block does.
pub open spec fn block_step(st: LoadView, p: Seq<char>, topo: CpuTopology) -> LoadView {
    if grammar::closes_block(p) {
        st.closed()
    } else {
        match grammar::block_rule(p) {
            Some((thread, value, closed)) => {
                let next = st.with_rule(topo, st.cur, thread, value);
                if closed {
                    next.closed()
                } else {
                    next
                }
            },
            None => if p.contains('}') {
                st.failed().closed()
            } else {
                st.failed()
            },
        }
    }
}

/// What a line outside any block does.
pub open spec fn outer_step(st: LoadView, p: Seq<char>, topo: CpuTopology) -> LoadView {
    match grammar::outer(p) {
        grammar::OuterView::Single { pkg, thread, cpus, open } => {
            let next = st.pending_dropped().no_pending().with_rule(topo, pkg, thread, cpus);
            if open {
                next.opened(pkg)
            } else {
                next
            }
        },
        grammar::OuterView::Rule { pkg, cpus, open } => {
            let next = st.pending_dropped().no_pending();
            if refresh_lines::is_app_line(pkg, cpus) {
                LoadView { apps: refresh_lines::apps_after(next.apps, pkg, cpus), ..next }
            } else {
                let ruled = next.with_rule(topo, pkg, seq![], cpus);
                if open {
                    ruled.opened(pkg)
                } else {
                    ruled
                }
            }
        },
        grammar::OuterView::BareOpen { pkg } => {
            if pkg.len() > 0 {
                st.pending_dropped().no_pending().opened(pkg)
            } else if st.pending.len() > 0 {
                st.no_pending().opened(st.pending)
            } else {
                st.failed()
            }
        },
        grammar::OuterView::Pending { pkg } => LoadView { pending: pkg, ..st.pending_dropped() },
        grammar::OuterView::Junk => st.failed().no_pending(),
    }
}

/// What a line of the file does.
pub open spec fn load_step(st: LoadView, line: Seq<char>, topo: CpuTopology) -> LoadView {
    let p = text::trimmed(line);
    if grammar::is_blank_or_comment(p) {
        st
    } else if refresh_lines::is_global_line(p) {
        LoadView { globals: refresh_lines::globals_after(st.globals, p), ..st }
    } else if st.in_block {
        block_step(st, p, topo)
    } else {
        outer_step(st, p, topo)
    }
}

/// The reading of a file after its first `n` lines.
pub open spec fn load_after(lines: Seq<Seq<char>>, n: nat, topo: CpuTopology) -> LoadView
    decreases n,
{
    if n == 0 {
        LoadView::start()
    } else {
        load_step(load_after(lines, (n - 1) as nat, topo), lines[n - 1], topo)
    }
}

/// The reading of a whole file: a block left open, or a package that still
/// waits for its block, counts as one failure more.
pub open spec fn load_all(content: Seq<char>, topo: CpuTopology) -> LoadView {
    let lines = text::line_seq(content);
    let st = load_after(lines, lines.len(), topo);
    if st.in_block || st.pending.len() > 0 {
        st.failed()
    } else {
        st
    }
}

/// A count as far as a machine word holds it.
pub open spec fn capped(n: nat) -> usize {
    if n <= usize::MAX {
        n as usize
    } else {
        usize::MAX
    }
}

/// The state of the reader of a rule file.
struct Loader {
    rules: Vec<AffinityRule>,
    fails: usize,
    globals: RefreshTriple,
    apps: NameMap<RefreshTriple>,
    cur: String,
    pending: String,
    in_block: bool,
}

impl Loader {
    spec fn at(self, st: LoadView) -> bool {
        &&& self.apps.wf()
        &&& rule_views(self.rules@) == st.rules
        &&& forall|i: int| 0 <= i < self.rules@.len() ==> (#[trigger] self.rules@[i]).cpuset_dir@.len() == 0
        &&& self.fails == capped(st.fails)
        &&& self.globals == st.globals
        &&& self.apps@ == st.apps
        &&& self.cur@ == st.cur
        &&& self.pending@ == st.pending
        &&& self.in_block == st.in_block
    }

    fn fail(&mut self, Ghost(st): Ghost<LoadView>)
        requires
            old(self).at(st),
        ensures
            final(self).at(st.failed()),
    {
        if self.fails < usize::MAX {
            self.fails = self.fails + 1;
        }
    }

    fn drop_pending(&mut self, Ghost(st): Ghost<LoadView>)
        requires
            old(self).at(st),
        ensures
            final(self).at(st.pending_dropped().no_pending()),
    {
        if !self.pending.as_str().is_empty() {
            self.fail(Ghost(st));
        }
        self.pending = String::new();
    }

    fn rule(
        &mut self,
        topo: &CpuTopology,
        pkg: &str,
        thread: &str,
        value: &str,
        Ghost(st): Ghost<LoadView>,
    )
        requires
            old(self).at(st),
        ensures
            final(self).at(st.with_rule(*topo, pkg@, thread@, value@)),
    {
        let ghost before = self.rules@;
        if !add_rule(&mut self.rules, topo, pkg, thread, value) {
            self.fail(Ghost(st));
        } else {
            assert forall|i: int| 0 <= i < self.rules@.len() implies (
            #[trigger] self.rules@[i]).cpuset_dir@.len() == 0 by {
                if i < before.len() {
                    assert(self.rules@.drop_last()[i] == before[i]);
                }
            }
        }
    }

    fn close(&mut self, Ghost(st): Ghost<LoadView>)
        requires
            old(self).at(st),
        ensures
            final(self).at(st.closed()),
    {
        self.in_block = false;
        self.cur = String::new();
    }

    fn open(&mut self, pkg: &str, Ghost(st): Ghost<LoadView>)
        requires
            old(self).at(st),
        ensures
            final(self).at(st.opened(pkg@)),
    {
        self.in_block = true;
        self.cur = pkg.to_owned();
    }

    fn block_line(&mut self, p: &str, topo: &CpuTopology, Ghost(st): Ghost<LoadView>)
        requires
            old(self).at(st),
        ensures
            final(self).at(block_step(st, p@, *topo)),
    {
        if grammar::close_like(p) {
            self.close(Ghost(st));
            return ;
        }
        match grammar::split_rule_line(p) {
            Some((thread, value, closed)) => {
                let pkg = self.cur.clone();
                self.rule(topo, pkg.as_str(), thread, value, Ghost(st));
                if closed {
                    self.close(Ghost(st.with_rule(*topo, st.cur, thread@, value@)));
                }
            },
            None => {
                self.fail(Ghost(st));
                if text::has_char(p, '}') {
                    self.close(Ghost(st.failed()));
                }
            },
        }
    }

    fn outer_line(&mut self, p: &str, topo: &CpuTopology, Ghost(st): Ghost<LoadView>)
        requires
            old(self).at(st),
        ensures
            final(self).at(outer_step(st, p@, *topo)),
    {
        match grammar::parse_outer(p) {
            OuterLine::Single { pkg, thread, cpus, open } => {
                self.drop_pending(Ghost(st));
                let ghost st1 = st.pending_dropped().no_pending();
                self.rule(topo, pkg, thread, cpus, Ghost(st1));
                if open {
                    self.open(pkg, Ghost(st1.with_rule(*topo, pkg@, thread@, cpus@)));
                }
            },
            OuterLine::Rule { pkg, cpus, open } => {
                self.drop_pending(Ghost(st));
                let ghost st1 = st.pending_dropped().no_pending();
                if !refresh_lines::route_pkg_val_line(pkg, cpus, &mut self.apps) {
                    let empty = String::new();
                    assert(empty@ =~= Seq::<char>::empty());
                    self.rule(topo, pkg, empty.as_str(), cpus, Ghost(st1));
                    if open {
                        self.open(pkg, Ghost(st1.with_rule(*topo, pkg@, empty@, cpus@)));
                    }
                }
            },
            OuterLine::BareOpen { pkg } => {
                if !pkg.is_empty() {
                    self.drop_pending(Ghost(st));
                    self.open(pkg, Ghost(st.pending_dropped().no_pending()));
                } else if !self.pending.as_str().is_empty() {
                    let owner = self.pending.clone();
                    self.pending = String::new();
                    self.open(owner.as_str(), Ghost(st.no_pending()));
                } else {
                    self.fail(Ghost(st));
                }
            },
            OuterLine::Pending { pkg } => {
                if !self.pending.as_str().is_empty() {
                    self.fail(Ghost(st));
                }
                self.pending = pkg.to_owned();
            },
            OuterLine::Junk => {
                self.fail(Ghost(st));
                self.pending = String::new();
            },
        }
    }

    fn line(&mut self, line: &str, topo: &CpuTopology, Ghost(st): Ghost<LoadView>)
        requires
            old(self).at(st),
        ensures
            final(self).at(load_step(st, line@, *topo)),
    {
        let p = text::trim(line);
        if grammar::is_skip_line(p) {
            return ;
        }
        if refresh_lines::parse_refresh_config_line(p, &mut self.globals) {
            return ;
        }
        if self.in_block {
            self.block_line(p, topo, Ghost(st));
        } else {
            self.outer_line(p, topo, Ghost(st));
        }
    }
}

/// Everything that a rule file sets.
pub struct AppConfig {
    pub rules: Vec<AffinityRule>,
    /// The packages that have a CPU rule.
    pub pkgs: NameSet,
    /// The packages that have a rule for some of their threads.
    pub has_thread_rules: NameSet,
    pub topo: CpuTopology,
    pub refresh_timeout: i32,
    pub refresh_active: i32,
    pub refresh_idle: i32,
    /// The applications with refresh-rate settings of their own.
    pub app_refresh_configs: NameMap<RefreshTriple>,
}

/// The packages of some rules.
pub open spec fn rule_pkgs(rules: Seq<RuleView>) -> Set<Seq<char>> {
    Set::new(|p: Seq<char>| exists|i: int| 0 <= i < rules.len() && (#[trigger] rules[i]).pkg == p)
}

/// The packages of those rules that are for threads.
pub open spec fn thread_rule_pkgs(rules: Seq<RuleView>) -> Set<Seq<char>> {
    Set::new(
        |p: Seq<char>|
            exists|i: int|
                0 <= i < rules.len() && (#[trigger] rules[i]).pkg == p && rules[i].thread.len() > 0,
    )
}

impl AppConfig {
    /// The sets of packages are those of the rules.
    pub open spec fn wf(self) -> bool {
        &&& self.pkgs.wf()
        &&& self.has_thread_rules.wf()
        &&& self.app_refresh_configs.wf()
        &&& self.pkgs@ == rule_pkgs(rule_views(self.rules@))
        &&& self.has_thread_rules@ == thread_rule_pkgs(rule_views(self.rules@))
    }

    /// The global refresh-rate settings.
    pub open spec fn globals(self) -> RefreshTriple {
        (self.refresh_timeout, self.refresh_active, self.refresh_idle)
    }

    /// The configuration holds what the reading of a file found.
    pub open spec fn holds(self, st: LoadView, topo: CpuTopology) -> bool {
        &&& self.wf()
        &&& rule_views(self.rules@) == st.rules
        &&& self.globals() == st.globals
        &&& self.app_refresh_configs@ == st.apps
        &&& self.topo == topo
    }
}

/// The packages of the rules, and of those that are for threads.
pub(crate) fn package_sets(rules: &Vec<AffinityRule>) -> (r: (NameSet, NameSet))
    ensures
        r.0.wf(),
        r.1.wf(),
        r.0@ == rule_pkgs(rule_views(rules@)),
        r.1@ == thread_rule_pkgs(rule_views(rules@)),
{
    let mut pkgs = NameSet::new();
    let mut threaded = NameSet::new();
    let ghost all = rule_views(rules@);
    let mut i: usize = 0;
    assert(pkgs@ =~= rule_pkgs(all.take(0)));
    assert(threaded@ =~= thread_rule_pkgs(all.take(0)));
    while i < rules.len()
        invariant
            i <= rules.len(),
            all == rule_views(rules@),
            pkgs.wf(),
            threaded.wf(),
            pkgs@ == rule_pkgs(all.take(i as int)),
            threaded@ == thread_rule_pkgs(all.take(i as int)),
        decreases rules.len() - i,
    {
        let rule = &rules[i];
        let ghost a = all.take(i as int);
        let ghost b = all.take(i + 1);
        assert(b == a.push(rule@));
        pkgs.insert(rule.pkg.as_str());
        if !rule.thread.as_str().is_empty() {
            threaded.insert(rule.pkg.as_str());
        }
        proof {
            assert forall|p: Seq<char>| rule_pkgs(b).contains(p) <==> (rule_pkgs(a).contains(p) || p
                == rule@.pkg) by {
                if rule_pkgs(a).contains(p) {
                    let k = choose|k: int| 0 <= k < a.len() && (#[trigger] a[k]).pkg == p;
                    assert(b[k] == a[k]);
                }
                assert(b[i as int] == rule@);
            }
            assert forall|p: Seq<char>|
                thread_rule_pkgs(b).contains(p) <==> (thread_rule_pkgs(a).contains(p) || (p
                    == rule@.pkg && rule@.thread.len() > 0)) by {
                if thread_rule_pkgs(a).contains(p) {
                    let k = choose|k: int|
                        0 <= k < a.len() && (#[trigger] a[k]).pkg == p && a[k].thread.len() > 0;
                    assert(b[k] == a[k]);
                }
                assert(b[i as int] == rule@);
            }
            assert(pkgs@ =~= rule_pkgs(b));
            assert(threaded@ =~= thread_rule_pkgs(b));
        }
        i += 1;
    }
    assert(all.take(all.len() as int) == all);
    (pkgs, threaded)
}

/// Reads the text of a rule file. The second result is the number of lines, or
/// pairs of lines, that made no sense.
pub fn parse_config(content: &str, topo: &CpuTopology) -> (r: (AppConfig, usize))
    ensures
        r.0.holds(load_all(content@, *topo), *topo),
        forall|i: int| 0 <= i < r.0.rules@.len() ==> (#[trigger] r.0.rules@[i]).cpuset_dir@.len() == 0,
        r.1 == capped(load_all(content@, *topo).fails),
{
    let lines = text::lines(content);
    let ghost all = text::line_seq(content@);
    let mut ld = Loader {
        rules: Vec::new(),
        fails: 0,
        globals: (30, refresh_lines::REFRESH_MODE_120, refresh_lines::REFRESH_MODE_60),
        apps: NameMap::new(),
        cur: String::new(),
        pending: String::new(),
        in_block: false,
    };
    let mut i: usize = 0;
    proof {
        assert(rule_views(ld.rules@) =~= Seq::<RuleView>::empty());
        assert(ld.cur@ =~= Seq::<char>::empty());
        assert(ld.at(LoadView::start()));
    }
    while i < lines.len()
        invariant
            i <= lines.len(),
            text::views(lines@) == all,
            ld.at(load_after(all, i as nat, *topo)),
        decreases lines.len() - i,
    {
        let line = lines[i];
        assert(line@ == all[i as int]);
        ld.line(line, topo, Ghost(load_after(all, i as nat, *topo)));
        i += 1;
    }
    let ghost st = load_after(all, all.len(), *topo);
    if ld.in_block || !ld.pending.as_str().is_empty() {
        ld.fail(Ghost(st));
    }
    let (pkgs, has_thread_rules) = package_sets(&ld.rules);
    let cfg = AppConfig {
        rules: ld.rules,
        pkgs,
        has_thread_rules,
        topo: topo.clone(),
        refresh_timeout: ld.globals.0,
        refresh_active: ld.globals.1,
        refresh_idle: ld.globals.2,
        app_refresh_configs: ld.apps,
    };
    (cfg, ld.fails)
}

/// The file is the one that was read last.
pub open spec fn is_unchanged(mtime: i64, last_mtime: i64) -> bool {
    last_mtime == mtime && last_mtime != -1
}

/// Reads the rule file if it can be had and is not the one that was read last:
/// `mtime` is its modification time and `content` its text, where they were
/// read. A last time of -1 forces the reading.
pub fn load_config(
    mtime: Option<i64>,
    content: Option<&str>,
    topo: &CpuTopology,
    last_mtime: &mut i64,
    parse_fails: &mut usize,
) -> (r: Option<AppConfig>)
    ensures
        match r {
            Some(cfg) => {
                &&& mtime is Some && !is_unchanged(mtime->0, *old(last_mtime)) && content is Some
                &&& cfg.holds(load_all(content->0@, *topo), *topo)
                &&& forall|i: int|
                    0 <= i < cfg.rules@.len() ==> (#[trigger] cfg.rules@[i]).cpuset_dir@.len() == 0
                &&& *final(last_mtime) == mtime->0
                &&& *final(parse_fails) == capped(load_all(content->0@, *topo).fails)
            },
            None => {
                &&& mtime is None || is_unchanged(mtime->0, *old(last_mtime)) || content is None
                &&& *final(last_mtime) == *old(last_mtime)
                &&& *final(parse_fails) == *old(parse_fails)
            },
        },
{
    let m: i64 = match mtime {
        Some(m) => m,
        None => return None,
    };
    if *last_mtime == m && *last_mtime != -1 {
        return None;
    }
    let t: &str = match content {
        Some(t) => t,
        None => return None,
    };
    let (cfg, fails) = parse_config(t, topo);
    *last_mtime = m;
    *parse_fails = fails;
    Some(cfg)
}

/// The rule is for a whole package, names CPUs, and the machine has cpusets.
pub open spec fn wants_dir(rule: AffinityRule, topo: CpuTopology) -> bool {
    topo.cpuset_enabled && rule.thread@.len() == 0 && rule.cpus@ != Set::<int>::empty()
}

/// The name of the cpuset directory that a rule is to have, if it is to have one.
pub fn wanted_dir(rule: &AffinityRule, topo: &CpuTopology) -> (r: Option<String>)
    ensures
        match r {
            Some(d) => wants_dir(*rule, *topo) && d@ == cpuset::range_text(rule.cpus@),
            None => !wants_dir(*rule, *topo),
        },
{
    if topo.cpuset_enabled && rule.thread.as_str().is_empty() {
        if rule.cpus.count() > 0 {
            assert(rule.cpus@ != Set::<int>::empty());
            return Some(rule.cpus.to_range_string());
        }
        assert(rule.cpus@ =~= Set::<int>::empty());
    }
    None
}

/// The directory of a rule, once it is known whether it could be had.
pub open spec fn settled_dir(rule: AffinityRule, topo: CpuTopology, made: bool) -> Seq<char> {
    if wants_dir(rule, topo) && made {
        cpuset::range_text(rule.cpus@)
    } else {
        seq![]
    }
}

/// Notes for each rule whether the cpuset directory that it wants could be had.
pub fn settle_cpuset_dirs(cfg: &mut AppConfig, made: &Vec<bool>)
    requires
        old(cfg).wf(),
        made@.len() == old(cfg).rules@.len(),
    ensures
        final(cfg).wf(),
        final(cfg).rules@.len() == old(cfg).rules@.len(),
        rule_views(final(cfg).rules@) == rule_views(old(cfg).rules@),
        forall|i: int|
            0 <= i < made@.len() ==> (#[trigger] final(cfg).rules@[i]).cpuset_dir@ == settled_dir(
                old(cfg).rules@[i],
                old(cfg).topo,
                made@[i],
            ),
        final(cfg).topo == old(cfg).topo,
        final(cfg).globals() == old(cfg).globals(),
        final(cfg).app_refresh_configs == old(cfg).app_refresh_configs,
{
    let ghost before = *cfg;
    let mut i: usize = 0;
    while i < made.len()
        invariant
            i <= made.len(),
            made@.len() == before.rules@.len(),
            cfg.rules@.len() == before.rules@.len(),
            before.wf(),
            cfg.pkgs == before.pkgs,
            cfg.has_thread_rules == before.has_thread_rules,
            cfg.topo == before.topo,
            cfg.globals() == before.globals(),
            cfg.app_refresh_configs == before.app_refresh_configs,
            forall|j: int| 0 <= j < made.len() ==> (#[trigger] cfg.rules@[j])@ == before.rules@[j]@,
            forall|j: int|
                0 <= j < i ==> (#[trigger] cfg.rules@[j]).cpuset_dir@ == settled_dir(
                    before.rules@[j],
                    before.topo,
                    made@[j],
                ),
        decreases made.len() - i,
    {
        let rule = &cfg.rules[i];
        assert(cfg.rules@[i as int]@ == before.rules@[i as int]@);
        let dir: String = match wanted_dir(rule, &cfg.topo) {
            Some(d) => if made[i] {
                d
            } else {
                String::new()
            },
            None => String::new(),
        };
        assert(dir@ =~= settled_dir(before.rules@[i as int], before.topo, made@[i as int]));
        let next = AffinityRule {
            pkg: rule.pkg.clone(),
            thread: rule.thread.clone(),
            cpuset_dir: dir,
            cpus: rule.cpus,
            util_min: rule.util_min,
            util_max: rule.util_max,
        };
        cfg.rules.set(i, next);
        i += 1;
    }
    assert(rule_views(cfg.rules@) =~= rule_views(before.rules@));
}

/// Two rules are alike in everything that places threads.
pub open spec fn same_rule(a: AffinityRule, b: AffinityRule) -> bool {
    a@ == b@ && a.cpuset_dir@ == b.cpuset_dir@
}

/// The two configurations have the same rules in the same order.
pub open spec fn same_rules(a: AppConfig, b: AppConfig) -> bool {
    a.rules@.len() == b.rules@.len() && forall|i: int|
        0 <= i < a.rules@.len() ==> same_rule(#[trigger] a.rules@[i], b.rules@[i])
}

/// Whether two rules are alike.
fn rules_alike(a: &AffinityRule, b: &AffinityRule) -> (r: bool)
    ensures
        r == same_rule(*a, *b),
{
    text::same(a.pkg.as_str(), b.pkg.as_str()) && text::same(a.thread.as_str(), b.thread.as_str())
        && text::same(a.cpuset_dir.as_str(), b.cpuset_dir.as_str()) && a.cpus.same_as(&b.cpus)
        && a.util_min == b.util_min && a.util_max == b.util_max
}

/// Whether the CPU rules of a new configuration differ from those of the old one.
pub fn cpu_config_changed(a: &AppConfig, b: &AppConfig) -> (r: bool)
    ensures
        r == !same_rules(*a, *b),
{
    if a.rules.len() != b.rules.len() {
        return true;
    }
    let mut i: usize = 0;
    while i < a.rules.len()
        invariant
            i <= a.rules.len(),
            a.rules.len() == b.rules.len(),
            forall|j: int| 0 <= j < i ==> same_rule(#[trigger] a.rules@[j], b.rules@[j]),
        decreases a.rules.len() - i,
    {
        if !rules_alike(&a.rules[i], &b.rules[i]) {
            assert(!same_rule(a.rules@[i as int], b.rules@[i as int]));
            return true;
        }
        i += 1;
    }
    false
}

/// The packages of a configuration with the same rules are the same.
pub proof fn same_rules_same_packages(a: AppConfig, b: AppConfig)
    requires
        a.wf(),
        b.wf(),
        same_rules(a, b),
    ensures
        a.pkgs@ == b.pkgs@,
        a.has_thread_rules@ == b.has_thread_rules@,
{
    assert forall|i: int| 0 <= i < a.rules@.len() implies a.rules@[i]@ == b.rules@[i]@ by {
        assert(same_rule(a.rules@[i], b.rules@[i]));
    }
    assert(rule_views(a.rules@) =~= rule_views(b.rules@));
}

/// The configuration that all parts of the daemon share.
pub struct ConfigStore {
    pub current: Option<AppConfig>,
    /// The last reload changed the CPU rules; set until someone asks.
    pub cpu_rules_changed: bool,
    pub parse_fails: usize,
    /// The event descriptor of the main loop; negative until there is one.
    pub wake_fd: i32,
    /// A request to arm (1) or disarm (-1) the kernel module; 0 for none.
    pub kpm_arm_req: i8,
}

/// What a request to reload the configuration asks of the caller.
#[derive(Clone, Copy, PartialEq, Eq, Structural, Debug)]
pub enum ReloadRequest {
    /// Wake the main loop, which will reload.
    Wake,
    /// There is no main loop yet: reload here.
    ReloadNow,
}

impl ConfigStore {
    /// A store before the first configuration; the first event finds the rules
    /// changed.
    pub fn new() -> (r: ConfigStore)
        ensures
            r.current is None,
            r.cpu_rules_changed,
            r.parse_fails == 0,
            r.wake_fd == -1,
            r.kpm_arm_req == 0,
    {
        ConfigStore {
            current: None,
            cpu_rules_changed: true,
            parse_fails: 0,
            wake_fd: -1,
            kpm_arm_req: 0,
        }
    }

    /// The configuration, where there is one, is well formed.
    pub open spec fn wf(self) -> bool {
        self.current matches Some(c) ==> c.wf()
    }
}

/// Whether the last reload changed the CPU rules; asking resets it.
pub fn take_cpu_rules_changed(store: &mut ConfigStore) -> (r: bool)
    ensures
        r == old(store).cpu_rules_changed,
        *final(store) == (ConfigStore { cpu_rules_changed: false, ..*old(store) }),
{
    let r: bool = store.cpu_rules_changed;
    store.cpu_rules_changed = false;
    r
}

/// Asks for the configuration to be reloaded.
pub fn request_config_reload(store: &ConfigStore) -> (r: ReloadRequest)
    ensures
        r == (if store.wake_fd >= 0 {
            ReloadRequest::Wake
        } else {
            ReloadRequest::ReloadNow
        }),
{
    if store.wake_fd >= 0 {
        ReloadRequest::Wake
    } else {
        ReloadRequest::ReloadNow
    }
}

/// Asks for the kernel module to be armed or disarmed.
pub fn set_kpm_arm_req(store: &mut ConfigStore, arm: bool) -> (r: ReloadRequest)
    ensures
        *final(store) == (ConfigStore {
            kpm_arm_req: if arm {
                1i8
            } else {
                -1i8
            },
            ..*old(store)
        }),
        r == (if old(store).wake_fd >= 0 {
            ReloadRequest::Wake
        } else {
            ReloadRequest::ReloadNow
        }),
{
    store.kpm_arm_req = if arm {
        1
    } else {
        -1
    };
    request_config_reload(store)
}

/// The pending request to arm or disarm the kernel module; asking resets it.
pub fn take_kpm_arm_req(store: &mut ConfigStore) -> (r: i8)
    ensures
        r == old(store).kpm_arm_req,
        *final(store) == (ConfigStore { kpm_arm_req: 0, ..*old(store) }),
{
    let r: i8 = store.kpm_arm_req;
    store.kpm_arm_req = 0;
    r
}

/// What becomes of the store when a reload ends: without an old configuration
/// nothing; without a new one the old one stays and counts as unchanged;
/// otherwise the new one takes its place.
pub open spec fn reloaded(
    before: ConfigStore,
    loaded: Option<AppConfig>,
    after: ConfigStore,
    changed: bool,
) -> bool {
    &&& after.parse_fails == before.parse_fails
    &&& after.wake_fd == before.wake_fd
    &&& after.kpm_arm_req == before.kpm_arm_req
    &&& match (before.current, loaded) {
        (None, _) => after == before && !changed,
        (Some(_), None) => after.current == before.current && !after.cpu_rules_changed && !changed,
        (Some(a), Some(b)) => after.current == Some(b) && after.cpu_rules_changed == changed
            && changed == !same_rules(a, b),
    }
}

/// Puts a newly loaded configuration in place; whether its CPU rules differ.
pub fn config_reload(store: &mut ConfigStore, loaded: Option<AppConfig>) -> (r: bool)
    requires
        old(store).wf(),
        loaded matches Some(c) ==> c.wf(),
    ensures
        final(store).wf(),
        reloaded(*old(store), loaded, *final(store), r),
{
    let changed: bool = match &store.current {
        None => return false,
        Some(a) => match &loaded {
            None => false,
            Some(b) => cpu_config_changed(a, b),
        },
    };
    store.cpu_rules_changed = changed;
    if loaded.is_some() {
        store.current = loaded;
    }
    changed
}

/// Puts a newly loaded configuration in place at once; whether the main loop
/// is to be woken.
pub fn config_reload_now(store: &mut ConfigStore, loaded: Option<AppConfig>) -> (wake: bool)
    requires
        old(store).wf(),
        loaded matches Some(c) ==> c.wf(),
    ensures
        final(store).wf(),
        exists|changed: bool| reloaded(*old(store), loaded, *final(store), changed),
        wake == (old(store).wake_fd >= 0),
{
    let changed: bool = config_reload(store, loaded);
    assert(reloaded(*old(store), loaded, *store, changed));
    store.wake_fd >= 0
}

/// Takes over the refresh-rate settings of the rule file, and nothing else.
pub fn reload_refresh_only(store: &mut ConfigStore, content: Option<&str>)
    requires
        old(store).wf(),
    ensures
        final(store).wf(),
        final(store).cpu_rules_changed == old(store).cpu_rules_changed,
        final(store).parse_fails == old(store).parse_fails,
        final(store).wake_fd == old(store).wake_fd,
        final(store).kpm_arm_req == old(store).kpm_arm_req,
        match old(store).current {
            None => final(store).current is None,
            Some(a) => final(store).current matches Some(b) && {
                &&& b.rules == a.rules
                &&& b.pkgs == a.pkgs
                &&& b.has_thread_rules == a.has_thread_rules
                &&& b.topo == a.topo
                &&& b.globals() == refresh_lines::refresh_of(content).globals
                &&& b.app_refresh_configs@ == refresh_lines::refresh_of(content).apps
            },
        },
{
    match store.current.take() {
        None => {},
        Some(mut cfg) => {
            let (globals, apps) = refresh_lines::load_refresh_config(content);
            cfg.refresh_timeout = globals.0;
            cfg.refresh_active = globals.1;
            cfg.refresh_idle = globals.2;
            cfg.app_refresh_configs = apps;
            store.current = Some(cfg);
        },
    }
}

/// A package is listed if and only if it has a rule, and listed as one with
/// rules for threads if and only if one of its rules is for threads.
pub proof fn packages_are_those_of_the_rules(cfg: AppConfig, p: Seq<char>)
    requires
        cfg.wf(),
    ensures
        cfg.pkgs@.contains(p) <==> exists|i: int|
            0 <= i < cfg.rules@.len() && (#[trigger] cfg.rules@[i]).pkg@ == p,
        cfg.has_thread_rules@.contains(p) <==> exists|i: int|
            0 <= i < cfg.rules@.len() && (#[trigger] cfg.rules@[i]).pkg@ == p
                && cfg.rules@[i].thread@.len() > 0,
{
    let vs = rule_views(cfg.rules@);
    assert forall|i: int| 0 <= i < vs.len() implies (#[trigger] vs[i]).pkg == cfg.rules@[i].pkg@
        && vs[i].thread == cfg.rules@[i].thread@ by {}
    if cfg.pkgs@.contains(p) {
        let i = choose|i: int| 0 <= i < vs.len() && (#[trigger] vs[i]).pkg == p;
        assert(cfg.rules@[i].pkg@ == p);
    }
    if exists|i: int| 0 <= i < cfg.rules@.len() && (#[trigger] cfg.rules@[i]).pkg@ == p {
        let i = choose|i: int| 0 <= i < cfg.rules@.len() && (#[trigger] cfg.rules@[i]).pkg@ == p;
        assert(vs[i].pkg == p);
    }
    if cfg.has_thread_rules@.contains(p) {
        let i = choose|i: int|
            0 <= i < vs.len() && (#[trigger] vs[i]).pkg == p && vs[i].thread.len() > 0;
        assert(cfg.rules@[i].pkg@ == p);
    }
    if exists|i: int|
        0 <= i < cfg.rules@.len() && (#[trigger] cfg.rules@[i]).pkg@ == p
            && cfg.rules@[i].thread@.len() > 0 {
        let i = choose|i: int|
            0 <= i < cfg.rules@.len() && (#[trigger] cfg.rules@[i]).pkg@ == p
                && cfg.rules@[i].thread@.len() > 0;
        assert(vs[i].pkg == p);
    }
}

/// A rule for a whole package that names CPUs has a cpuset directory named after
/// these, where cpusets are in use and it could be made; no other rule has one.
pub proof fn package_rules_have_directories(rule: AffinityRule, topo: CpuTopology, made: bool, c: int)
    ensures
        rule.cpus@.contains(c) && rule.thread@.len() == 0 && topo.cpuset_enabled && made
            ==> settled_dir(rule, topo, made) == cpuset::range_text(rule.cpus@),
        rule.thread@.len() > 0 || !topo.cpuset_enabled || !made || rule.cpus@ =~= Set::<int>::empty()
            ==> settled_dir(rule, topo, made).len() == 0,
{
}

/// A change of anything that a rule says is a change of the rules.
pub proof fn changes_are_noticed(a: AppConfig, b: AppConfig, i: int)
    requires
        0 <= i < a.rules@.len(),
        a.rules@.len() != b.rules@.len() || a.rules@[i].pkg@ != b.rules@[i].pkg@
            || a.rules@[i].thread@ != b.rules@[i].thread@ || a.rules@[i].cpus@
            != b.rules@[i].cpus@ || a.rules@[i].util_min != b.rules@[i].util_min
            || a.rules@[i].util_max != b.rules@[i].util_max || a.rules@[i].cpuset_dir@
            != b.rules@[i].cpuset_dir@,
    ensures
        !same_rules(a, b),
{
    if same_rules(a, b) {
        assert(same_rule(a.rules@[i], b.rules@[i]));
        assert(a.rules@[i]@ == b.rules@[i]@);
    }
}

/// A file is read again when its time is another one, and in any case where no
/// time is known.
pub proof fn changed_files_are_read(mtime: i64, last: i64)
    ensures
        mtime != last ==> !is_unchanged(mtime, last),
        last == -1 ==> !is_unchanged(mtime, last),
        last != -1 ==> is_unchanged(last, last),
{
}

/// A configuration that was loaded takes the place of the one in force, and the
/// rules count as changed if and only if they are other ones. Where none could
/// be loaded the one in force stays.
pub proof fn loaded_configurations_take_over(
    before: ConfigStore,
    loaded: Option<AppConfig>,
    after: ConfigStore,
    changed: bool,
)
    requires
        before.current is Some,
        reloaded(before, loaded, after, changed),
    ensures
        loaded is Some ==> after.current == loaded,
        loaded is None ==> after.current == before.current && !changed,
        after.cpu_rules_changed == changed,
        loaded matches Some(b) ==> changed == !same_rules(before.current->0, b),
{
}

/// A line that is blank or a comment leaves the reading as it was.
pub proof fn comments_change_nothing(st: LoadView, line: Seq<char>, topo: CpuTopology)
    requires
        grammar::is_blank_or_comment(text::trimmed(line)),
    ensures
        load_step(st, line, topo) == st,
{
}

/// A rule that the file may hold: names that fit, and CPUs of the machine's
/// tiers and present CPUs, or at least a clamp.
pub open spec fn rule_ok(v: RuleView, topo: CpuTopology) -> bool {
    &&& names_fit(v.pkg, v.thread)
    &&& v.cpus.subset_of(cpuset::cpu_numbers())
    &&& v.cpus == Set::<int>::empty() ==> v.util_min >= 0 && v.util_max >= 0
    &&& (v.util_min == -1 && v.util_max == -1) || (0 <= v.util_min <= 1024 && 0 <= v.util_max
        <= 1024)
}

/// Every rule that a value makes is one that a file may hold.
pub proof fn made_rules_are_ok(
    topo: CpuTopology,
    pkg: Seq<char>,
    thread: Seq<char>,
    value: Seq<char>,
)
    ensures
        rule_for(topo, pkg, thread, value) matches Some(v) ==> rule_ok(v, topo),
{
    if let Some(v) = rule_for(topo, pkg, thread, value) {
        assert forall|c: int| v.cpus.contains(c) implies cpuset::cpu_numbers().contains(c) by {
            let (cpus, lo, hi) = grammar::rule_spec(value);
            let ps = text::pieces(cpus, ',');
            let k = choose|k: int|
                0 <= k < ps.len() && #[trigger] cpuset::item_cpus(
                    text::trimmed(ps[k]),
                    topo,
                ).contains(c);
            assert(cpuset::item_cpus(text::trimmed(ps[k]), topo).contains(c));
        }
    }
}

/// All rules of a reading are rules that a file may hold, at every line.
pub proof fn loaded_rules_are_ok(lines: Seq<Seq<char>>, n: nat, topo: CpuTopology)
    requires
        n <= lines.len(),
    ensures
        forall|i: int|
            0 <= i < load_after(lines, n, topo).rules.len() ==> rule_ok(
                #[trigger] load_after(lines, n, topo).rules[i],
                topo,
            ),
    decreases n,
{
    if n > 0 {
        let st = load_after(lines, (n - 1) as nat, topo);
        let line = lines[n - 1];
        loaded_rules_are_ok(lines, (n - 1) as nat, topo);
        let p = text::trimmed(line);
        match grammar::block_rule(p) {
            Some((thread, value, closed)) => {
                made_rules_are_ok(topo, st.cur, thread, value);
            },
            None => {},
        }
        match grammar::outer(p) {
            grammar::OuterView::Single { pkg, thread, cpus, open } => {
                made_rules_are_ok(topo, pkg, thread, cpus);
            },
            grammar::OuterView::Rule { pkg, cpus, open } => {
                made_rules_are_ok(topo, pkg, seq![], cpus);
            },
            _ => {},
        }
    }
}

} // verus!
