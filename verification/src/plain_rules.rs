//! A rule file with CPU rules alone, in a plainer grammar: blocks, one-line
//! rules, and packages whose block opens on a later line.
use vstd::prelude::*;

use crate::config;
use crate::config::{AffinityRule, RuleView};
use crate::cpuset;
use crate::cpuset::CpuTopology;
use crate::forms;
use crate::grammar;
use crate::names::NameSet;
use crate::text;

verus! {

broadcast use vstd::string::group_string_axioms;

/// The rule that a package, a thread pattern and a list of CPUs make.
pub open spec fn plain_rule(
    topo: CpuTopology,
    pkg: Seq<char>,
    thread: Seq<char>,
    cpus: Seq<char>,
) -> Option<RuleView> {
    let set = cpuset::listed(cpus, topo.present_cpus@);
    if text::byte_len(pkg) < grammar::MAX_PKG_LEN && text::byte_len(thread)
        < grammar::MAX_THREAD_LEN && set != Set::<int>::empty() {
        Some(RuleView { pkg, thread, cpus: set, util_min: -1, util_max: -1 })
    } else {
        None
    }
}

/// Adds the rule that a package, a thread pattern and a list of CPUs make;
/// whether they make one.
pub fn add_rule(
    rules: &mut Vec<AffinityRule>,
    topo: &CpuTopology,
    pkg: &str,
    thread: &str,
    cpus_spec: &str,
) -> (r: bool)
    ensures
        match plain_rule(*topo, pkg@, thread@, cpus_spec@) {
            Some(v) => r && config::rule_views(final(rules)@) == config::rule_views(
                old(rules)@,
            ).push(v),
            None => !r && *final(rules) == *old(rules),
        },
{
    if text::byte_length(pkg) >= grammar::MAX_PKG_LEN || text::byte_length(thread)
        >= grammar::MAX_THREAD_LEN {
        return false;
    }
    let set = cpuset::parse_cpu_ranges(cpus_spec, Some(&topo.present_cpus));
    if set.count() == 0 {
        assert(set@ =~= Set::<int>::empty());
        return false;
    }
    let ghost before = rules@;
    rules.push(
        AffinityRule {
            pkg: pkg.to_owned(),
            thread: thread.to_owned(),
            cpuset_dir: String::new(),
            cpus: set,
            util_min: -1,
            util_max: -1,
        },
    );
    proof {
        let v = rules@.last()@;
        assert(set@ != Set::<int>::empty());
        assert(plain_rule(*topo, pkg@, thread@, cpus_spec@) == Some(v));
        assert(config::rule_views(rules@) =~= config::rule_views(before).push(v));
    }
    true
}

/// How far the reading of a file has come.
#[verifier::ext_equal]
pub ghost struct PlainView {
    pub rules: Seq<RuleView>,
    /// The number of lines, or pairs of lines, that made no sense.
    pub fails: nat,
    /// The package of the open block.
    pub cur: Seq<char>,
    /// The package whose block may open next; empty where there is none.
    pub pending: Seq<char>,
    pub in_block: bool,
}

impl PlainView {
    /// Before the first line.
    pub open spec fn start() -> PlainView {
        PlainView { rules: seq![], fails: 0, cur: seq![], pending: seq![], in_block: false }
    }

    /// One more thing that made no sense.
    pub open spec fn failed(self) -> PlainView {
        PlainView { fails: self.fails + 1, ..self }
    }

    /// With the rule added, or a failure counted.
    pub open spec fn with_rule(
        self,
        topo: CpuTopology,
        pkg: Seq<char>,
        thread: Seq<char>,
        cpus: Seq<char>,
    ) -> PlainView {
        match plain_rule(topo, pkg, thread, cpus) {
            Some(v) => PlainView { rules: self.rules.push(v), ..self },
            None => self.failed(),
        }
    }

    /// With the rule added if there are any CPUs to read at all.
    pub open spec fn with_rule_if_any(
        self,
        topo: CpuTopology,
        pkg: Seq<char>,
        thread: Seq<char>,
        cpus: Seq<char>,
    ) -> PlainView {
        if cpus.len() > 0 {
            self.with_rule(topo, pkg, thread, cpus)
        } else {
            self
        }
    }

    /// With a block open for a package.
    pub open spec fn opened(self, pkg: Seq<char>) -> PlainView {
        PlainView { in_block: true, cur: pkg, ..self }
    }

    /// With the block closed.
    pub open spec fn closed(self) -> PlainView {
        PlainView { in_block: false, cur: seq![], ..self }
    }

    /// A package that waited for its block in vain counts as a failure.
    pub open spec fn pending_dropped(self) -> PlainView {
        if self.pending.len() > 0 {
            self.failed()
        } else {
            self
        }
    }

    /// With no package waiting for its block.
    pub open spec fn no_pending(self) -> PlainView {
        PlainView { pending: seq![], ..self }
    }
}

/// What stands before the first `c`, without white space around it; all where
/// there is none.
pub open spec fn part_before(s: Seq<char>, c: char) -> Seq<char> {
    text::trimmed(s.take(text::first(s, c) as int))
}

/// What stands behind the first `c`, without white space around it.
pub open spec fn part_after(s: Seq<char>, c: char) -> Seq<char> {
    text::trimmed(s.skip(text::first(s, c) as int + 1))
}

/// What a line inside a block does.
pub open spec fn block_step(st: PlainView, p: Seq<char>, topo: CpuTopology) -> PlainView {
    let inner = if p.contains('}') {
        part_before(p, '}')
    } else {
        p
    };
    let next = if inner.len() == 0 {
        st
    } else if inner.contains('=') {
        st.with_rule(topo, st.cur, part_before(inner, '='), part_after(inner, '='))
    } else {
        st.failed()
    };
    if p.contains('}') {
        next.closed()
    } else {
        next
    }
}

/// What a line does in which a brace opens before any `=`, with `pkg` before
/// the brace and `rest` behind it.
pub open spec fn brace_step(
    st: PlainView,
    pkg: Seq<char>,
    rest: Seq<char>,
    topo: CpuTopology,
) -> PlainView {
    if rest.contains('}') {
        let next = st.pending_dropped().no_pending();
        let thread = part_before(rest, '}');
        let tail = part_after(rest, '}');
        if !tail.contains('=') {
            next.failed()
        } else {
            let cpus = part_after(tail, '=');
            if cpus.contains('{') {
                next.with_rule_if_any(topo, pkg, thread, part_before(cpus, '{')).opened(pkg)
            } else {
                next.with_rule(topo, pkg, thread, cpus)
            }
        }
    } else if pkg.len() > 0 {
        st.pending_dropped().opened(pkg).no_pending()
    } else if st.pending.len() > 0 {
        st.opened(st.pending).no_pending()
    } else {
        st.failed()
    }
}

/// What a line does in which `=` comes first, with `pkg` before it and `rest`
/// behind it.
pub open spec fn equals_step(
    st: PlainView,
    pkg: Seq<char>,
    rest: Seq<char>,
    topo: CpuTopology,
) -> PlainView {
    let next = st.pending_dropped();
    if rest.contains('{') {
        next.opened(pkg).with_rule_if_any(topo, pkg, seq![], part_before(rest, '{')).no_pending()
    } else if rest.len() == 0 {
        PlainView { pending: pkg, ..next }
    } else {
        next.with_rule(topo, pkg, seq![], rest).no_pending()
    }
}

/// What a line outside any block does.
pub open spec fn outer_step(st: PlainView, p: Seq<char>, topo: CpuTopology) -> PlainView {
    let eq = text::first(p, '=');
    let br = text::first(p, '{');
    if eq == p.len() && br == p.len() {
        st.pending_dropped().no_pending()
    } else if br < eq {
        brace_step(st, part_before(p, '{'), part_after(p, '{'), topo)
    } else {
        equals_step(st, part_before(p, '='), part_after(p, '='), topo)
    }
}

/// What a line does.
pub open spec fn plain_step(st: PlainView, line: Seq<char>, topo: CpuTopology) -> PlainView {
    let p = text::trimmed(line);
    if grammar::is_blank_or_comment(p) {
        st
    } else if st.in_block {
        block_step(st, p, topo)
    } else {
        outer_step(st, p, topo)
    }
}

/// The reading of a file after its first `n` lines.
pub open spec fn plain_after(lines: Seq<Seq<char>>, n: nat, topo: CpuTopology) -> PlainView
    decreases n,
{
    if n == 0 {
        PlainView::start()
    } else {
        plain_step(plain_after(lines, (n - 1) as nat, topo), lines[n - 1], topo)
    }
}

/// The reading of a whole file: a block left open, or a package that still
/// waits for its block, counts as one failure more.
pub open spec fn plain_all(content: Seq<char>, topo: CpuTopology) -> PlainView {
    let lines = text::line_seq(content);
    let st = plain_after(lines, lines.len(), topo);
    if st.in_block || st.pending.len() > 0 {
        st.failed()
    } else {
        st
    }
}

struct PlainLoader {
    rules: Vec<AffinityRule>,
    fails: usize,
    cur: String,
    pending: String,
    in_block: bool,
}

impl PlainLoader {
    spec fn at(self, st: PlainView) -> bool {
        &&& config::rule_views(self.rules@) == st.rules
        &&& self.fails == config::capped(st.fails)
        &&& self.cur@ == st.cur
        &&& self.pending@ == st.pending
        &&& self.in_block == st.in_block
    }

    fn fail(&mut self, Ghost(st): Ghost<PlainView>)
        requires
            old(self).at(st),
        ensures
            final(self).at(st.failed()),
    {
        if self.fails < usize::MAX {
            self.fails = self.fails + 1;
        }
    }

    fn drop_pending(&mut self, Ghost(st): Ghost<PlainView>)
        requires
            old(self).at(st),
        ensures
            final(self).at(st.pending_dropped()),
    {
        if !self.pending.as_str().is_empty() {
            self.fail(Ghost(st));
        }
    }

    fn rule(
        &mut self,
        topo: &CpuTopology,
        pkg: &str,
        thread: &str,
        cpus: &str,
        Ghost(st): Ghost<PlainView>,
    )
        requires
            old(self).at(st),
        ensures
            final(self).at(st.with_rule(*topo, pkg@, thread@, cpus@)),
    {
        if !add_rule(&mut self.rules, topo, pkg, thread, cpus) {
            self.fail(Ghost(st));
        }
    }

    fn open(&mut self, pkg: &str, Ghost(st): Ghost<PlainView>)
        requires
            old(self).at(st),
        ensures
            final(self).at(st.opened(pkg@)),
    {
        self.in_block = true;
        self.cur = pkg.to_owned();
    }

    fn clear_pending(&mut self, Ghost(st): Ghost<PlainView>)
        requires
            old(self).at(st),
        ensures
            final(self).at(st.no_pending()),
    {
        self.pending = String::new();
    }

    fn block_line(&mut self, p: &str, topo: &CpuTopology, Ghost(st): Ghost<PlainView>)
        requires
            old(self).at(st),
        ensures
            final(self).at(block_step(st, p@, *topo)),
    {
        proof {
            text::lemma_first(p@, '}');
        }
        let (inner, end): (&str, bool) = match text::find(p, '}') {
            Some(k) => (text::trim(text::head(p, k)), true),
            None => (p, false),
        };
        let ghost mut next = st;
        if !inner.is_empty() {
            match text::split_once(inner, '=') {
                Some((a, b)) => {
                    let pkg = self.cur.clone();
                    let thread = text::trim(a);
                    let cpus = text::trim(b);
                    self.rule(topo, pkg.as_str(), thread, cpus, Ghost(st));
                    proof {
                        next = st.with_rule(*topo, st.cur, thread@, cpus@);
                    }
                },
                None => {
                    self.fail(Ghost(st));
                    proof {
                        next = st.failed();
                    }
                },
            }
        }
        if end {
            self.in_block = false;
            self.cur = String::new();
            proof {
                assert(self.cur@ =~= Seq::<char>::empty());
                assert(self.at(next.closed()));
            }
        }
    }

    fn brace_line(&mut self, pkg: &str, rest: &str, topo: &CpuTopology, Ghost(st): Ghost<PlainView>)
        requires
            old(self).at(st),
        ensures
            final(self).at(brace_step(st, pkg@, rest@, *topo)),
    {
        match text::split_once(rest, '}') {
            Some((a, b)) => {
                self.drop_pending(Ghost(st));
                self.clear_pending(Ghost(st.pending_dropped()));
                let ghost next = st.pending_dropped().no_pending();
                let thread = text::trim(a);
                let tail = text::trim(b);
                match text::split_once(tail, '=') {
                    None => {
                        self.fail(Ghost(next));
                    },
                    Some((_, c)) => {
                        let cpus = text::trim(c);
                        match text::split_once(cpus, '{') {
                            Some((only, _)) => {
                                let only = text::trim(only);
                                let ghost mut ruled = next;
                                if !only.is_empty() {
                                    self.rule(topo, pkg, thread, only, Ghost(next));
                                    proof {
                                        ruled = next.with_rule(*topo, pkg@, thread@, only@);
                                    }
                                }
                                self.open(pkg, Ghost(ruled));
                            },
                            None => {
                                self.rule(topo, pkg, thread, cpus, Ghost(next));
                            },
                        }
                    },
                }
            },
            None => {
                if !pkg.is_empty() {
                    self.drop_pending(Ghost(st));
                    self.open(pkg, Ghost(st.pending_dropped()));
                    self.clear_pending(Ghost(st.pending_dropped().opened(pkg@)));
                } else if !self.pending.as_str().is_empty() {
                    let owner = self.pending.clone();
                    self.open(owner.as_str(), Ghost(st));
                    self.clear_pending(Ghost(st.opened(owner@)));
                } else {
                    self.fail(Ghost(st));
                }
            },
        }
    }

    fn equals_line(
        &mut self,
        pkg: &str,
        rest: &str,
        topo: &CpuTopology,
        Ghost(st): Ghost<PlainView>,
    )
        requires
            old(self).at(st),
        ensures
            final(self).at(equals_step(st, pkg@, rest@, *topo)),
    {
        self.drop_pending(Ghost(st));
        let ghost next = st.pending_dropped();
        let empty = String::new();
        proof {
            assert(empty@ =~= Seq::<char>::empty());
        }
        match text::split_once(rest, '{') {
            Some((a, _)) => {
                let cpus = text::trim(a);
                self.open(pkg, Ghost(next));
                let ghost mut ruled = next.opened(pkg@);
                if !cpus.is_empty() {
                    self.rule(topo, pkg, empty.as_str(), cpus, Ghost(ruled));
                    proof {
                        ruled = ruled.with_rule(*topo, pkg@, empty@, cpus@);
                    }
                }
                self.clear_pending(Ghost(ruled));
            },
            None => {
                if rest.is_empty() {
                    self.pending = pkg.to_owned();
                } else {
                    self.rule(topo, pkg, empty.as_str(), rest, Ghost(next));
                    self.clear_pending(Ghost(next.with_rule(*topo, pkg@, empty@, rest@)));
                }
            },
        }
    }

    fn outer_line(&mut self, p: &str, topo: &CpuTopology, Ghost(st): Ghost<PlainView>)
        requires
            old(self).at(st),
        ensures
            final(self).at(outer_step(st, p@, *topo)),
    {
        let n: usize = p.unicode_len();
        proof {
            text::lemma_first(p@, '=');
            text::lemma_first(p@, '{');
        }
        let eq: usize = match text::find(p, '=') {
            Some(k) => k,
            None => n,
        };
        let br: usize = match text::find(p, '{') {
            Some(k) => k,
            None => n,
        };
        if eq == n && br == n {
            self.drop_pending(Ghost(st));
            self.clear_pending(Ghost(st.pending_dropped()));
        } else if br < eq {
            let pkg = text::trim(text::head(p, br));
            let rest = text::trim(text::tail(p, br + 1));
            self.brace_line(pkg, rest, topo, Ghost(st));
        } else {
            let pkg = text::trim(text::head(p, eq));
            let rest = text::trim(text::tail(p, eq + 1));
            self.equals_line(pkg, rest, topo, Ghost(st));
        }
    }
}

/// What a rule file in the plain grammar sets.
pub struct PlainConfig {
    pub rules: Vec<AffinityRule>,
    /// The packages that have a rule.
    pub pkgs: NameSet,
    /// The packages that have a rule for some of their threads.
    pub has_thread_rules: NameSet,
    pub topo: CpuTopology,
    pub config_file: String,
}

impl PlainConfig {
    /// The sets of packages are those of the rules.
    pub open spec fn wf(self) -> bool {
        &&& self.pkgs.wf()
        &&& self.has_thread_rules.wf()
        &&& self.pkgs@ == config::rule_pkgs(config::rule_views(self.rules@))
        &&& self.has_thread_rules@ == config::thread_rule_pkgs(config::rule_views(self.rules@))
    }
}

/// Reads the text of a rule file. The second result is the number of lines, or
/// pairs of lines, that made no sense.
pub fn parse_plain(config_file: &str, content: &str, topo: &CpuTopology) -> (r: (
    PlainConfig,
    usize,
))
    ensures
        r.0.wf(),
        config::rule_views(r.0.rules@) == plain_all(content@, *topo).rules,
        r.0.topo == *topo,
        r.0.config_file@ == config_file@,
        r.1 == config::capped(plain_all(content@, *topo).fails),
{
    let lines = text::lines(content);
    let ghost all = text::line_seq(content@);
    let mut ld = PlainLoader {
        rules: Vec::new(),
        fails: 0,
        cur: String::new(),
        pending: String::new(),
        in_block: false,
    };
    let mut i: usize = 0;
    proof {
        assert(config::rule_views(ld.rules@) =~= Seq::<RuleView>::empty());
        assert(ld.cur@ =~= Seq::<char>::empty());
        assert(ld.at(PlainView::start()));
    }
    while i < lines.len()
        invariant
            i <= lines.len(),
            text::views(lines@) == all,
            ld.at(plain_after(all, i as nat, *topo)),
        decreases lines.len() - i,
    {
        let line = lines[i];
        assert(line@ == all[i as int]);
        let ghost st = plain_after(all, i as nat, *topo);
        let p = text::trim(line);
        if !grammar::is_skip_line(p) {
            if ld.in_block {
                ld.block_line(p, topo, Ghost(st));
            } else {
                ld.outer_line(p, topo, Ghost(st));
            }
        }
        i += 1;
    }
    if ld.in_block || !ld.pending.as_str().is_empty() {
        ld.fail(Ghost(plain_after(all, all.len(), *topo)));
    }
    let (pkgs, has_thread_rules) = config::package_sets(&ld.rules);
    let cfg = PlainConfig {
        rules: ld.rules,
        pkgs,
        has_thread_rules,
        topo: topo.clone(),
        config_file: config_file.to_owned(),
    };
    (cfg, ld.fails)
}

/// Reads the rule file if it can be had and is not the one that was read last;
/// the second result is the number of lines that made no sense.
pub fn load_config(
    config_file: &str,
    mtime: Option<i64>,
    content: Option<&str>,
    topo: &CpuTopology,
    last_mtime: &mut i64,
) -> (r: Option<(PlainConfig, usize)>)
    ensures
        match r {
            Some((cfg, fails)) => {
                &&& mtime is Some && !config::is_unchanged(mtime->0, *old(last_mtime)) && content
                    is Some
                &&& cfg.wf()
                &&& config::rule_views(cfg.rules@) == plain_all(content->0@, *topo).rules
                &&& cfg.topo == *topo
                &&& cfg.config_file@ == config_file@
                &&& fails == config::capped(plain_all(content->0@, *topo).fails)
                &&& *final(last_mtime) == mtime->0
            },
            None => {
                &&& mtime is None || config::is_unchanged(mtime->0, *old(last_mtime)) || content
                    is None
                &&& *final(last_mtime) == *old(last_mtime)
            },
        },
{
    let m: i64 = match mtime {
        Some(m) => m,
        None => return None,
    };
    if *last_mtime == m && *last_mtime != -1 {
        return None;
    }
    let t: &str = match content {
        Some(t) => t,
        None => return None,
    };
    let r = parse_plain(config_file, t, topo);
    *last_mtime = m;
    Some(r)
}

/// The directory of a rule, once it is known whether it could be made.
pub open spec fn plain_dir(rule: RuleView, topo: CpuTopology, made: bool) -> Seq<char> {
    if topo.cpuset_enabled && made {
        cpuset::range_text(rule.cpus)
    } else {
        seq![]
    }
}

/// Notes for each rule whether its cpuset directory could be made.
pub fn settle_dirs(cfg: &mut PlainConfig, made: &Vec<bool>)
    requires
        old(cfg).wf(),
        made@.len() == old(cfg).rules@.len(),
    ensures
        final(cfg).wf(),
        config::rule_views(final(cfg).rules@) == config::rule_views(old(cfg).rules@),
        forall|i: int|
            0 <= i < made@.len() ==> (#[trigger] final(cfg).rules@[i]).cpuset_dir@ == plain_dir(
                old(cfg).rules@[i]@,
                old(cfg).topo,
                made@[i],
            ),
        final(cfg).topo == old(cfg).topo,
        final(cfg).config_file == old(cfg).config_file,
{
    let ghost before = *cfg;
    let mut i: usize = 0;
    while i < made.len()
        invariant
            i <= made.len(),
            made@.len() == before.rules@.len(),
            cfg.rules@.len() == before.rules@.len(),
            before.wf(),
            cfg.pkgs == before.pkgs,
            cfg.has_thread_rules == before.has_thread_rules,
            cfg.topo == before.topo,
            cfg.config_file == before.config_file,
            forall|j: int| 0 <= j < made.len() ==> (#[trigger] cfg.rules@[j])@ == before.rules@[j]@,
            forall|j: int|
                0 <= j < i ==> (#[trigger] cfg.rules@[j]).cpuset_dir@ == plain_dir(
                    before.rules@[j]@,
                    before.topo,
                    made@[j],
                ),
        decreases made.len() - i,
    {
        let rule = &cfg.rules[i];
        assert(cfg.rules@[i as int]@ == before.rules@[i as int]@);
        let dir: String = if cfg.topo.cpuset_enabled && made[i] {
            rule.cpus.to_range_string()
        } else {
            String::new()
        };
        assert(dir@ =~= plain_dir(before.rules@[i as int]@, before.topo, made@[i as int]));
        let next = AffinityRule {
            pkg: rule.pkg.clone(),
            thread: rule.thread.clone(),
            cpuset_dir: dir,
            cpus: rule.cpus,
            util_min: rule.util_min,
            util_max: rule.util_max,
        };
        cfg.rules.set(i, next);
        i += 1;
    }
    assert(config::rule_views(cfg.rules@) =~= config::rule_views(before.rules@));
}

/// The configuration that the loader and the main loop share.
pub struct PlainStore {
    pub current: Option<PlainConfig>,
    /// There is a new configuration that the main loop has not seen.
    pub updated: bool,
}

/// Takes over a newly loaded configuration, where there is one and there was
/// one before.
pub fn try_reload_config(store: &mut PlainStore, loaded: Option<PlainConfig>)
    ensures
        match (old(store).current, loaded) {
            (Some(_), Some(c)) => final(store).current == Some(c) && final(store).updated,
            _ => *final(store) == *old(store),
        },
{
    if store.current.is_some() && loaded.is_some() {
        store.current = loaded;
        store.updated = true;
    }
}

/// A rule that the file was read to hold is a rule: its names are short enough
/// and it names CPUs that the machine has.
pub open spec fn plain_rule_ok(v: RuleView, topo: CpuTopology) -> bool {
    &&& text::byte_len(v.pkg) < grammar::MAX_PKG_LEN
    &&& text::byte_len(v.thread) < grammar::MAX_THREAD_LEN
    &&& v.cpus != Set::<int>::empty()
    &&& v.cpus.subset_of(topo.present_cpus@)
}

/// Whatever a file says, the rules that are read of it name CPUs that the
/// machine has.
pub proof fn plain_rules_are_ok(lines: Seq<Seq<char>>, n: nat, topo: CpuTopology)
    ensures
        forall|i: int|
            0 <= i < plain_after(lines, n, topo).rules.len() ==> plain_rule_ok(
                #[trigger] plain_after(lines, n, topo).rules[i],
                topo,
            ),
    decreases n,
{
    if n > 0 {
        plain_rules_are_ok(lines, (n - 1) as nat, topo);
        let a = plain_after(lines, (n - 1) as nat, topo);
        let b = plain_after(lines, n, topo);
        assert forall|i: int| 0 <= i < b.rules.len() implies plain_rule_ok(
            #[trigger] b.rules[i],
            topo,
        ) by {
            if i < a.rules.len() {
                assert(b.rules[i] == a.rules[i]);
            } else {
                let v = b.rules[i];
                assert(i == a.rules.len());
                assert(exists|p: Seq<char>, t: Seq<char>, c: Seq<char>|
                    #[trigger] plain_rule(topo, p, t, c) == Some(v));
            }
        }
    }
}

/// The reading with one rule more at the end, or, where there is none, with one
/// failure more.
pub open spec fn taken(st: PlainView, rule: Option<RuleView>) -> PlainView {
    match rule {
        Some(r) => PlainView { rules: st.rules.push(r), ..st },
        None => PlainView { fails: st.fails + 1, ..st },
    }
}

/// A line of words is read as it stands.
proof fn lemma_line(s: Seq<char>, a: Seq<char>, rest: Seq<char>)
    requires
        forms::is_word(a),
        s == a + rest,
        rest.len() > 0,
        !text::is_space(rest.last()),
    ensures
        text::trimmed(s) == s,
        !grammar::is_blank_or_comment(s),
{
    assert(s[0] == a[0]);
    assert(s.last() == rest.last());
    assert(forms::is_plain(a[0]));
    text::lemma_trimmed_id(s);
    if a.len() > 1 {
        assert(s[1] == a[1]);
        assert(forms::is_plain(a[1]));
    }
}

proof fn lemma_package_line(st: PlainView, pkg: Seq<char>, cpus: Seq<char>, topo: CpuTopology)
    requires
        !st.in_block,
        st.pending.len() == 0,
        forms::is_word(pkg),
        forms::is_word(cpus),
    ensures
        plain_step(st, forms::package_line(pkg, cpus), topo) == taken(
            st,
            plain_rule(topo, pkg, seq![], cpus),
        ),
{
    forms::lemma_word(pkg);
    forms::lemma_word(cpus);
    assert(st.no_pending() =~= st);
    let s = forms::package_line(pkg, cpus);
    assert(s =~= pkg + (seq!['='] + cpus));
    assert((seq!['='] + cpus).last() == cpus.last());
    lemma_line(s, pkg, seq!['='] + cpus);
    forms::lemma_first_in(pkg, '=', cpus);
    assert(!s.contains('{')) by {
        if s.contains('{') {
            let j = s.index_of('{');
            if j < pkg.len() {
                assert(pkg[j] == '{');
            } else if j > pkg.len() {
                assert(cpus[j - pkg.len() - 1] == '{');
            }
        }
    }
    forms::lemma_first_none(s, '{');
}

#[verifier::rlimit(50)]
proof fn lemma_open_line(st: PlainView, pkg: Seq<char>, cpus: Seq<char>, topo: CpuTopology)
    requires
        !st.in_block,
        st.pending.len() == 0,
        forms::is_word(pkg),
        forms::is_word(cpus),
    ensures
        plain_step(st, forms::open_line(pkg), topo) == (PlainView {
            in_block: true,
            cur: pkg,
            ..st
        }),
{
    forms::lemma_word(pkg);
    forms::lemma_word(cpus);
    assert(st.no_pending() =~= st);
    let o = forms::open_line(pkg);
    let ob = pkg + seq![' '];
    assert(o =~= ob + seq!['{'] + Seq::<char>::empty());
    assert(o =~= pkg + seq![' ', '{']);
    lemma_line(o, pkg, seq![' ', '{']);
    assert(!ob.contains('{')) by {
        if ob.contains('{') {
            let j = ob.index_of('{');
            if j < pkg.len() {
                assert(pkg[j] == '{');
            }
        }
    }
    forms::lemma_first_in(ob, '{', Seq::<char>::empty());
    assert(!o.contains('=')) by {
        if o.contains('=') {
            let j = o.index_of('=');
            if j < pkg.len() {
                assert(pkg[j] == '=');
            }
        }
    }
    forms::lemma_first_none(o, '=');
    let n = pkg.len() as int;
    assert(ob[0] == pkg[0] && ob[n - 1] == pkg[n - 1]);
    text::lemma_trimmed_is(ob, 0, n);
    assert(ob.subrange(0, n) =~= pkg);
    assert(text::trimmed(Seq::<char>::empty()) =~= Seq::<char>::empty());
}

#[verifier::rlimit(50)]
proof fn lemma_package_open_line(st: PlainView, pkg: Seq<char>, cpus: Seq<char>, topo: CpuTopology)
    requires
        !st.in_block,
        st.pending.len() == 0,
        forms::is_word(pkg),
        forms::is_word(cpus),
    ensures
        plain_step(st, forms::package_open_line(pkg, cpus), topo) == (PlainView {
            in_block: true,
            cur: pkg,
            ..taken(st, plain_rule(topo, pkg, seq![], cpus))
        }),
{
    forms::lemma_word(pkg);
    forms::lemma_word(cpus);
    assert(st.no_pending() =~= st);
    let n = pkg.len() as int;
    let po = forms::package_open_line(pkg, cpus);
    let tail = cpus + seq![' '] + seq!['{'] + Seq::<char>::empty();
    assert(po =~= pkg + seq!['='] + tail);
    assert(po =~= pkg + (seq!['='] + tail));
    assert((seq!['='] + tail).last() == '{');
    lemma_line(po, pkg, seq!['='] + tail);
    forms::lemma_first_in(pkg, '=', tail);
    let cb = cpus + seq![' '];
    assert(!cb.contains('{')) by {
        if cb.contains('{') {
            let j = cb.index_of('{');
            if j < cpus.len() {
                assert(cpus[j] == '{');
            }
        }
    }
    forms::lemma_first_in(cb, '{', Seq::<char>::empty());
    assert(tail =~= cb + seq!['{'] + Seq::<char>::empty());
    assert(tail[0] == cpus[0] && tail.last() == '{');
    text::lemma_trimmed_id(tail);
    assert(tail.contains('{')) by {
        assert(tail[cb.len() as int] == '{');
    }
    let m = cpus.len() as int;
    assert(cb[0] == cpus[0] && cb[m - 1] == cpus[m - 1]);
    text::lemma_trimmed_is(cb, 0, m);
    assert(cb.subrange(0, m) =~= cpus);
    text::lemma_first(po, '{');
    assert(text::first(po, '{') > text::first(po, '=')) by {
        let k = text::first(po, '{') as int;
        if k < n {
            assert(po[k] == pkg[k]);
            assert(pkg.contains(pkg[k]));
        } else if k == n {
            assert(po[n] == '=');
        }
    }
}

/// What a line of that form is cut into.
proof fn lemma_compact_parts(pkg: Seq<char>, thread: Seq<char>, cpus: Seq<char>)
    requires
        forms::is_word(pkg),
        forms::is_word(thread),
        forms::is_word(cpus),
    ensures
        ({
            let c = forms::compact_line(pkg, thread, cpus);
            let rest = thread + seq!['}'] + (seq!['='] + cpus);
            &&& text::trimmed(c) == c
            &&& !grammar::is_blank_or_comment(c)
            &&& text::first(c, '{') == pkg.len()
            &&& text::first(c, '{') < text::first(c, '=')
            &&& part_before(c, '{') == pkg
            &&& part_after(c, '{') == rest
        }),
{
    forms::lemma_word(pkg);
    forms::lemma_word(thread);
    forms::lemma_word(cpus);
    let n = pkg.len() as int;
    let c = forms::compact_line(pkg, thread, cpus);
    let rest = thread + seq!['}'] + (seq!['='] + cpus);
    assert(c =~= pkg + seq!['{'] + rest);
    assert(c =~= pkg + (seq!['{'] + rest));
    assert((seq!['{'] + rest).last() == cpus.last());
    lemma_line(c, pkg, seq!['{'] + rest);
    forms::lemma_first_in(pkg, '{', rest);
    text::lemma_first(c, '=');
    let k = text::first(c, '=') as int;
    if k < n {
        assert(c[k] == pkg[k]);
        assert(pkg.contains(pkg[k]));
    } else if k == n {
        assert(c[n] == '{');
    }
    assert(rest[0] == thread[0] && rest.last() == cpus.last());
    text::lemma_trimmed_id(rest);
}

/// What stands behind the brace of such a line is cut into.
proof fn lemma_compact_rest(thread: Seq<char>, cpus: Seq<char>)
    requires
        forms::is_word(thread),
        forms::is_word(cpus),
    ensures
        ({
            let rest = thread + seq!['}'] + (seq!['='] + cpus);
            let e = seq!['='] + cpus;
            &&& rest.contains('}')
            &&& part_before(rest, '}') == thread
            &&& part_after(rest, '}') == e
            &&& e.contains('=')
            &&& part_after(e, '=') == cpus
            &&& !cpus.contains('{')
        }),
{
    forms::lemma_word(thread);
    forms::lemma_word(cpus);
    let rest = thread + seq!['}'] + (seq!['='] + cpus);
    forms::lemma_first_in(thread, '}', seq!['='] + cpus);
    assert(rest[thread.len() as int] == '}');
    let e = seq!['='] + cpus;
    assert(e[0] == '=' && e.last() == cpus.last());
    text::lemma_trimmed_id(e);
    assert(e =~= Seq::<char>::empty() + seq!['='] + cpus);
    forms::lemma_first_in(Seq::<char>::empty(), '=', cpus);
}

#[verifier::rlimit(50)]
proof fn lemma_compact_line(
    st: PlainView,
    pkg: Seq<char>,
    thread: Seq<char>,
    cpus: Seq<char>,
    topo: CpuTopology,
)
    requires
        !st.in_block,
        st.pending.len() == 0,
        forms::is_word(pkg),
        forms::is_word(thread),
        forms::is_word(cpus),
    ensures
        plain_step(st, forms::compact_line(pkg, thread, cpus), topo) == taken(
            st,
            plain_rule(topo, pkg, thread, cpus),
        ),
{
    lemma_compact_parts(pkg, thread, cpus);
    lemma_compact_rest(thread, cpus);
    let c = forms::compact_line(pkg, thread, cpus);
    let rest = thread + seq!['}'] + (seq!['='] + cpus);
    text::lemma_first(c, '=');
    assert(st.no_pending() =~= st);
    assert(outer_step(st, c, topo) == brace_step(st, pkg, rest, topo));
    assert(brace_step(st, pkg, rest, topo) == st.with_rule(topo, pkg, thread, cpus));
}

/// In the plain grammar, too, `pkg=cpus` sets a rule for the package, with a
/// `{` behind it opens its block, and `pkg{thread}=cpus` sets a rule for a
/// thread.
pub proof fn plain_lines_set_rules(
    st: PlainView,
    pkg: Seq<char>,
    thread: Seq<char>,
    cpus: Seq<char>,
    topo: CpuTopology,
)
    requires
        !st.in_block,
        st.pending.len() == 0,
        forms::is_word(pkg),
        forms::is_word(thread),
        forms::is_word(cpus),
    ensures
        plain_step(st, forms::package_line(pkg, cpus), topo) == taken(
            st,
            plain_rule(topo, pkg, seq![], cpus),
        ),
        plain_step(st, forms::open_line(pkg), topo) == (PlainView {
            in_block: true,
            cur: pkg,
            ..st
        }),
        plain_step(st, forms::package_open_line(pkg, cpus), topo) == (PlainView {
            in_block: true,
            cur: pkg,
            ..taken(st, plain_rule(topo, pkg, seq![], cpus))
        }),
        plain_step(st, forms::compact_line(pkg, thread, cpus), topo) == taken(
            st,
            plain_rule(topo, pkg, thread, cpus),
        ),
{
    lemma_package_line(st, pkg, cpus, topo);
    lemma_open_line(st, pkg, cpus, topo);
    lemma_package_open_line(st, pkg, cpus, topo);
    lemma_compact_line(st, pkg, thread, cpus, topo);
}

/// In a block, `thread=cpus` sets a rule for that thread of the block's package,
/// `}` ends the block, and `thread=cpus }` does both.
#[verifier::rlimit(50)]
pub proof fn plain_block_lines_set_rules(
    st: PlainView,
    thread: Seq<char>,
    cpus: Seq<char>,
    topo: CpuTopology,
)
    requires
        st.in_block,
        forms::is_word(thread),
        forms::is_word(cpus),
    ensures
        plain_step(st, forms::thread_line(thread, cpus), topo) == taken(
            st,
            plain_rule(topo, st.cur, thread, cpus),
        ),
        plain_step(st, forms::close_line(), topo) == (PlainView {
            in_block: false,
            cur: seq![],
            ..st
        }),
        plain_step(st, forms::thread_close_line(thread, cpus), topo) == (PlainView {
            in_block: false,
            cur: seq![],
            ..taken(st, plain_rule(topo, st.cur, thread, cpus))
        }),
{
    forms::lemma_word(thread);
    forms::lemma_word(cpus);
    let s = thread + seq!['='] + cpus;
    let line = forms::thread_line(thread, cpus);
    assert(s =~= thread + (seq!['='] + cpus));
    assert((seq!['='] + cpus).last() == cpus.last());
    lemma_line(s, thread, seq!['='] + cpus);
    assert forall|j: int| 0 <= j < 4 implies text::is_space(#[trigger] line[j]) by {}
    assert(line[4] == s[0] && s[0] == thread[0]);
    assert(line.last() == s.last() && s.last() == cpus.last());
    text::lemma_trimmed_is(line, 4, line.len() as int);
    assert(line.subrange(4, line.len() as int) =~= s);
    forms::lemma_first_in(thread, '=', cpus);
    assert(!s.contains('}')) by {
        if s.contains('}') {
            let j = s.index_of('}');
            if j < thread.len() {
                assert(thread[j] == '}');
            } else if j > thread.len() {
                assert(cpus[j - thread.len() - 1] == '}');
            }
        }
    }
    assert(s[thread.len() as int] == '=');
    assert(s.contains('='));
    let none = Seq::<char>::empty();
    let e = forms::close_line();
    assert(e =~= none + seq!['}'] + none);
    forms::lemma_first_in(none, '}', none);
    text::lemma_trimmed_id(e);
    assert(e[0] == '}');
    assert(e.contains('}'));
    assert(text::trimmed(none) =~= none);
    let z = forms::thread_close_line(thread, cpus);
    let p = s + seq![' '] + seq!['}'] + none;
    assert forall|j: int| 0 <= j < 4 implies text::is_space(#[trigger] z[j]) by {}
    assert(z[4] == p[0] && p[0] == thread[0]);
    assert(z.last() == '}' && p.last() == '}');
    text::lemma_trimmed_is(z, 4, z.len() as int);
    assert(z.subrange(4, z.len() as int) =~= p);
    assert(p =~= thread + (seq!['='] + cpus + seq![' ', '}']));
    lemma_line(p, thread, seq!['='] + cpus + seq![' ', '}']);
    let sb = s + seq![' '];
    assert(!sb.contains('}')) by {
        if sb.contains('}') {
            let j = sb.index_of('}');
            if j < s.len() {
                assert(s[j] == '}');
            }
        }
    }
    forms::lemma_first_in(sb, '}', none);
    assert(p =~= sb + seq!['}'] + none);
    assert(p[sb.len() as int] == '}');
    assert(p.contains('}'));
    let m = s.len() as int;
    assert(sb[0] == s[0] && sb[m - 1] == s[m - 1]);
    text::lemma_trimmed_is(sb, 0, m);
    assert(sb.subrange(0, m) =~= s);
}

/// A list of CPUs that the machine has makes a rule for just these; where there
/// are none, or a name is too long, there is no rule.
pub proof fn plain_rules_name_their_cpus(
    topo: CpuTopology,
    pkg: Seq<char>,
    thread: Seq<char>,
    cpus: Seq<char>,
    c: int,
)
    ensures
        match plain_rule(topo, pkg, thread, cpus) {
            Some(r) => {
                &&& r.pkg == pkg && r.thread == thread && r.util_min == -1 && r.util_max == -1
                &&& r.cpus == cpuset::listed(cpus, topo.present_cpus@)
                &&& text::byte_len(pkg) < 128 && text::byte_len(thread) < 32
            },
            None => text::byte_len(pkg) >= 128 || text::byte_len(thread) >= 32
                || !cpuset::listed(cpus, topo.present_cpus@).contains(c),
        },
{
}

/// A file is read line by line from its start; a block that is still open at its
/// end, or a package that still waits for one, is a failure more.
pub proof fn plain_files_are_read_line_by_line(
    lines: Seq<Seq<char>>,
    line: Seq<char>,
    topo: CpuTopology,
)
    requires
        forall|i: int| 0 <= i < lines.len() ==> text::is_plain_line(#[trigger] lines[i]),
    ensures
        plain_after(lines.push(line), lines.len() + 1, topo) == plain_step(
            plain_after(lines, lines.len(), topo),
            line,
            topo,
        ),
        ({
            let st = plain_after(lines, lines.len(), topo);
            let all = plain_all(text::terminated(lines), topo);
            &&& all.rules == st.rules
            &&& all.fails == st.fails + if st.in_block || st.pending.len() > 0 {
                1nat
            } else {
                0nat
            }
        }),
{
    text::written_lines_read_back(lines);
    lemma_plain_prefix(lines, line, lines.len(), topo);
}

proof fn lemma_plain_prefix(lines: Seq<Seq<char>>, line: Seq<char>, n: nat, topo: CpuTopology)
    requires
        n <= lines.len(),
    ensures
        plain_after(lines.push(line), n, topo) == plain_after(lines, n, topo),
    decreases n,
{
    if n > 0 {
        lemma_plain_prefix(lines, line, (n - 1) as nat, topo);
    }
}

} // verus!
