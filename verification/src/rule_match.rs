//! Which CPUs and clamps a thread gets from the rules.
use vstd::prelude::*;

use crate::config::{AffinityRule, AppConfig};
use crate::cpuset::CpuSet;
use crate::grammar;
use crate::text;

verus! {

broadcast use vstd::string::group_string_axioms;

/// What the rules give a thread.
#[derive(Clone)]
pub struct AffinityResult {
    pub cpus: CpuSet,
    pub cpuset_dir: String,
    /// The lower clamp: the highest that a rule sets; -1 where none does.
    pub util_min: i32,
    /// The upper clamp: the lowest that a rule sets; -1 where none does.
    pub util_max: i32,
    /// A rule for threads gave it, not one for the whole package.
    pub is_thread_rule: bool,
}

/// The contents of an [`AffinityResult`].
#[verifier::ext_equal]
pub ghost struct ResultView {
    pub cpus: Set<int>,
    pub cpuset_dir: Seq<char>,
    pub util_min: int,
    pub util_max: int,
    pub is_thread_rule: bool,
}

impl View for AffinityResult {
    type V = ResultView;

    open spec fn view(&self) -> ResultView {
        ResultView {
            cpus: self.cpus@,
            cpuset_dir: self.cpuset_dir@,
            util_min: self.util_min as int,
            util_max: self.util_max as int,
            is_thread_rule: self.is_thread_rule,
        }
    }
}

/// A name that patterns are tried on: shorter than the longest thread name.
pub open spec fn is_matchable(thread: Seq<char>) -> bool {
    0 < thread.len() && text::byte_len(thread) < grammar::MAX_THREAD_LEN
}

/// Rule `i` is for threads of `pkg`, and its pattern matches the name of this
/// one. `hits` says for each rule whether its pattern matches.
pub open spec fn thread_rule_hits(
    rules: Seq<AffinityRule>,
    hits: Seq<bool>,
    pkg: Seq<char>,
    thread: Seq<char>,
    i: int,
) -> bool {
    rules[i].pkg@ == pkg && rules[i].thread@.len() > 0 && is_matchable(thread) && hits[i]
}

/// Rule `i` is for `pkg` as a whole.
pub open spec fn package_rule(rules: Seq<AffinityRule>, pkg: Seq<char>, i: int) -> bool {
    rules[i].pkg@ == pkg && rules[i].thread@.len() == 0
}

/// Some rule for threads matches.
pub open spec fn any_thread_rule(
    rules: Seq<AffinityRule>,
    hits: Seq<bool>,
    pkg: Seq<char>,
    thread: Seq<char>,
) -> bool {
    exists|i: int|
        0 <= i < rules.len() && #[trigger] thread_rule_hits(rules, hits, pkg, thread, i)
}

/// Rule `i` counts for a thread: the matching rules for threads count, and only
/// where there are none the rules for the whole package.
pub open spec fn counts(
    rules: Seq<AffinityRule>,
    hits: Seq<bool>,
    pkg: Seq<char>,
    thread: Seq<char>,
    i: int,
) -> bool {
    if any_thread_rule(rules, hits, pkg, thread) {
        thread_rule_hits(rules, hits, pkg, thread, i)
    } else {
        package_rule(rules, pkg, i)
    }
}

/// The CPUs of the rules among the first `n` that `sel` picks.
pub open spec fn cpus_of(rules: Seq<AffinityRule>, sel: spec_fn(int) -> bool, n: int) -> Set<int>
    decreases n,
{
    if n <= 0 {
        Set::empty()
    } else if sel(n - 1) {
        cpus_of(rules, sel, n - 1).union(rules[n - 1].cpus@)
    } else {
        cpus_of(rules, sel, n - 1)
    }
}

/// The lower clamp after a rule: the higher of the two, where it sets one.
pub open spec fn raised(m: int, rule_min: int) -> int {
    if rule_min >= 0 && rule_min > m {
        rule_min
    } else {
        m
    }
}

/// The upper clamp after a rule: the lower of the two, where it sets one.
pub open spec fn lowered(m: int, rule_max: int) -> int {
    if rule_max >= 0 && (m < 0 || rule_max < m) {
        rule_max
    } else {
        m
    }
}

/// The lower clamp of the rules among the first `n` that `sel` picks.
pub open spec fn clamp_min_of(rules: Seq<AffinityRule>, sel: spec_fn(int) -> bool, n: int) -> int
    decreases n,
{
    if n <= 0 {
        -1
    } else if sel(n - 1) {
        raised(clamp_min_of(rules, sel, n - 1), rules[n - 1].util_min as int)
    } else {
        clamp_min_of(rules, sel, n - 1)
    }
}

/// The upper clamp of the rules among the first `n` that `sel` picks.
pub open spec fn clamp_max_of(rules: Seq<AffinityRule>, sel: spec_fn(int) -> bool, n: int) -> int
    decreases n,
{
    if n <= 0 {
        -1
    } else if sel(n - 1) {
        lowered(clamp_max_of(rules, sel, n - 1), rules[n - 1].util_max as int)
    } else {
        clamp_max_of(rules, sel, n - 1)
    }
}

/// The directories of the rules among the first `n` that `sel` picks.
pub open spec fn dirs_of(rules: Seq<AffinityRule>, sel: spec_fn(int) -> bool, n: int) -> Seq<
    Seq<char>,
>
    decreases n,
{
    if n <= 0 {
        seq![]
    } else if sel(n - 1) {
        dirs_of(rules, sel, n - 1).push(rules[n - 1].cpuset_dir@)
    } else {
        dirs_of(rules, sel, n - 1)
    }
}

/// The directory of a package: that of its only rule, and none where there are
/// several.
pub open spec fn only_dir(dirs: Seq<Seq<char>>) -> Seq<char> {
    if dirs.len() == 1 {
        dirs[0]
    } else {
        seq![]
    }
}

/// What the rules give a thread of a package: the CPUs and the clamps that come
/// together from the rules that count. Rules that set clamps alone give no CPUs.
/// Where neither CPUs nor clamps come together, the thread gets nothing.
pub open spec fn affinity_of(
    cfg: AppConfig,
    hits: Seq<bool>,
    pkg: Seq<char>,
    thread: Seq<char>,
) -> Option<ResultView> {
    let rules = cfg.rules@;
    let n = rules.len() as int;
    let sel = |i: int| counts(rules, hits, pkg, thread, i);
    let by_thread = any_thread_rule(rules, hits, pkg, thread);
    let cpus = cpus_of(rules, sel, n);
    let util_min = clamp_min_of(rules, sel, n);
    let util_max = clamp_max_of(rules, sel, n);
    if cpus != Set::<int>::empty() || util_min >= 0 || util_max >= 0 {
        Some(
            ResultView {
                cpus,
                cpuset_dir: if by_thread {
                    seq![]
                } else {
                    only_dir(dirs_of(rules, sel, n))
                },
                util_min,
                util_max,
                is_thread_rule: by_thread,
            },
        )
    } else {
        None
    }
}

/// Narrows the clamps by those of a rule: the lower one up, the upper one down.
fn fold_util(min: &mut i32, max: &mut i32, rmin: i32, rmax: i32)
    ensures
        *final(min) == raised(*old(min) as int, rmin as int),
        *final(max) == lowered(*old(max) as int, rmax as int),
{
    if rmin >= 0 && rmin > *min {
        *min = rmin;
    }
    if rmax >= 0 && (*max < 0 || rmax < *max) {
        *max = rmax;
    }
}

/// Whether patterns are tried on a name at all; longer names match none.
pub fn fnmatch_c(string: &str, matched: bool) -> (r: bool)
    ensures
        r == (text::byte_len(string@) < grammar::MAX_THREAD_LEN && matched),
{
    if text::byte_length(string) >= grammar::MAX_THREAD_LEN {
        return false;
    }
    matched
}

/// Whether some rule for threads matches.
fn find_thread_rule(pkg: &str, thread: &str, rules: &Vec<AffinityRule>, hits: &Vec<bool>) -> (r:
    bool)
    requires
        hits@.len() == rules@.len(),
    ensures
        r == any_thread_rule(rules@, hits@, pkg@, thread@),
{
    if thread.is_empty() {
        return false;
    }
    let mut i: usize = 0;
    while i < rules.len()
        invariant
            i <= rules.len(),
            hits@.len() == rules@.len(),
            thread@.len() > 0,
            forall|j: int|
                0 <= j < i ==> !#[trigger] thread_rule_hits(rules@, hits@, pkg@, thread@, j),
        decreases rules.len() - i,
    {
        let rule = &rules[i];
        if text::same(rule.pkg.as_str(), pkg) && !rule.thread.as_str().is_empty() && fnmatch_c(
            thread,
            hits[i],
        ) {
            assert(thread_rule_hits(rules@, hits@, pkg@, thread@, i as int));
            return true;
        }
        i += 1;
    }
    false
}

/// Works out what the rules give a thread. `hits` says for each rule whether
/// its thread pattern matches the thread's name.
pub fn thread_affinity(pkg: &str, thread: &str, cfg: &AppConfig, hits: &Vec<bool>) -> (r: Option<
    AffinityResult,
>)
    requires
        hits@.len() == cfg.rules@.len(),
    ensures
        match r {
            Some(a) => affinity_of(*cfg, hits@, pkg@, thread@) == Some(a@),
            None => affinity_of(*cfg, hits@, pkg@, thread@) is None,
        },
{
    let rules = &cfg.rules;
    let ghost rs = cfg.rules@;
    let ghost sel = |i: int| counts(rs, hits@, pkg@, thread@, i);
    let by_thread: bool = find_thread_rule(pkg, thread, rules, hits);
    let mut cpus = CpuSet::new();
    let mut cpuset_dir = String::new();
    let mut util_min: i32 = -1;
    let mut util_max: i32 = -1;
    let mut seen: bool = false;
    let mut i: usize = 0;
    assert(cpuset_dir@ =~= Seq::<char>::empty());
    while i < rules.len()
        invariant
            i <= rules.len(),
            rules == &cfg.rules,
            rs == cfg.rules@,
            hits@.len() == rs.len(),
            by_thread == any_thread_rule(rs, hits@, pkg@, thread@),
            sel == (|i: int| counts(rs, hits@, pkg@, thread@, i)),
            cpus@ == cpus_of(rs, sel, i as int),
            util_min == clamp_min_of(rs, sel, i as int),
            util_max == clamp_max_of(rs, sel, i as int),
            seen == (dirs_of(rs, sel, i as int).len() > 0),
            cpuset_dir@ == only_dir(dirs_of(rs, sel, i as int)),
        decreases rules.len() - i,
    {
        let rule = &rules[i];
        let takes: bool = text::same(rule.pkg.as_str(), pkg) && if by_thread {
            !rule.thread.as_str().is_empty() && !thread.is_empty() && fnmatch_c(thread, hits[i])
        } else {
            rule.thread.as_str().is_empty()
        };
        assert(takes == sel(i as int));
        if takes {
            cpus.or(&rule.cpus);
            fold_util(&mut util_min, &mut util_max, rule.util_min, rule.util_max);
            if !seen {
                cpuset_dir = rule.cpuset_dir.clone();
                seen = true;
            } else {
                cpuset_dir = String::new();
            }
            assert(cpuset_dir@ =~= only_dir(dirs_of(rs, sel, i + 1)));
        }
        i += 1;
    }
    if by_thread {
        cpuset_dir = String::new();
    }
    assert(by_thread ==> cpuset_dir@ =~= Seq::<char>::empty());
    if cpus.count() == 0 {
        assert(cpus@ =~= Set::<int>::empty());
        if util_min < 0 && util_max < 0 {
            return None;
        }
    } else {
        assert(cpus@ != Set::<int>::empty());
    }
    Some(AffinityResult { cpus, cpuset_dir, util_min, util_max, is_thread_rule: by_thread })
}

/// Whether a package has rules, and whether some are for its threads.
pub fn pkg_match(pkg: &str, cfg: &AppConfig) -> (r: (bool, bool))
    ensures
        r.0 == cfg.pkgs@.contains(pkg@),
        r.1 == cfg.has_thread_rules@.contains(pkg@),
{
    (cfg.pkgs.contains(pkg), cfg.has_thread_rules.contains(pkg))
}

/// Whether a pattern matches a name, by pattern and name.
pub type Matcher = spec_fn(Seq<char>, Seq<char>) -> bool;

/// Printable ASCII only.
pub open spec fn is_ascii(s: Seq<char>) -> bool {
    forall|i: int| 0 <= i < s.len() ==> ' ' <= #[trigger] s[i] <= '~'
}

/// A character that stands for itself in a pattern.
pub open spec fn is_literal(c: char) -> bool {
    ' ' <= c <= '~' && c != '*' && c != '?' && c != '['
}

/// An end of a range of characters.
pub open spec fn is_range_end(c: char) -> bool {
    '0' <= c <= '9' || 'A' <= c <= 'Z' || 'a' <= c <= 'z'
}

/// The pattern for one character from `a` to `b`.
pub open spec fn range_pattern(a: char, b: char) -> Seq<char> {
    seq!['[', a, '-', b, ']']
}

/// `m` reads patterns of printable ASCII as they are written in rules: `*` is
/// any characters, `?` one character, `[a-b]` one of a range, and other
/// characters are themselves.
pub open spec fn reads_wildcards(m: Matcher) -> bool {
    &&& forall|s: Seq<char>| is_ascii(s) ==> (#[trigger] m(seq![], s) <==> s.len() == 0)
    &&& forall|p: Seq<char>, s: Seq<char>|
        is_ascii(p) && is_ascii(s) ==> (#[trigger] m(seq!['*'] + p, s) <==> exists|k: int|
            0 <= k <= s.len() && m(p, #[trigger] s.skip(k)))
    &&& forall|p: Seq<char>, s: Seq<char>|
        is_ascii(p) && is_ascii(s) ==> (#[trigger] m(seq!['?'] + p, s) <==> s.len() > 0 && m(
            p,
            s.skip(1),
        ))
    &&& forall|c: char, p: Seq<char>, s: Seq<char>|
        is_literal(c) && is_ascii(p) && is_ascii(s) ==> (#[trigger] m(seq![c] + p, s) <==> s.len()
            > 0 && s[0] == c && m(p, s.skip(1)))
    &&& forall|a: char, b: char, p: Seq<char>, s: Seq<char>|
        is_range_end(a) && is_range_end(b) && a <= b && is_ascii(p) && is_ascii(s) ==> (#[trigger] m(
            range_pattern(a, b) + p,
            s,
        ) <==> s.len() > 0 && a <= s[0] <= b && m(p, s.skip(1)))
}

/// The answers of a matcher on the patterns of the rules.
pub open spec fn answers(m: Matcher, rules: Seq<AffinityRule>, thread: Seq<char>) -> Seq<bool> {
    rules.map_values(|r: AffinityRule| m(r.thread@, thread))
}

/// A rule for threads counts for the threads whose names its pattern matches,
/// and for no others.
pub proof fn thread_rules_follow_patterns(
    m: Matcher,
    rules: Seq<AffinityRule>,
    pkg: Seq<char>,
    thread: Seq<char>,
    i: int,
)
    requires
        0 <= i < rules.len(),
        rules[i].pkg@ == pkg,
        rules[i].thread@.len() > 0,
        is_matchable(thread),
    ensures
        counts(rules, answers(m, rules, thread), pkg, thread, i) <==> m(rules[i].thread@, thread),
{
    let hits = answers(m, rules, thread);
    assert(thread_rule_hits(rules, hits, pkg, thread, i) <==> m(rules[i].thread@, thread));
}

/// The literal start of a pattern takes the same start off a name.
proof fn lemma_literal_start(m: Matcher, a: Seq<char>, p: Seq<char>, s: Seq<char>)
    requires
        reads_wildcards(m),
        forall|i: int| 0 <= i < a.len() ==> is_literal(#[trigger] a[i]),
        is_ascii(p),
        is_ascii(s),
    ensures
        m(a + p, s) <==> text::starts(s, a) && m(p, s.skip(a.len() as int)),
    decreases a.len(),
{
    if a.len() == 0 {
        assert(a + p =~= p);
        assert(s.take(0) =~= a);
        assert(s.skip(0) =~= s);
    } else {
        let b = a.skip(1);
        assert(a + p =~= seq![a[0]] + (b + p));
        assert(is_literal(a[0]));
        assert forall|i: int| 0 <= i < b.len() implies is_literal(#[trigger] b[i]) by {
            assert(is_literal(a[i + 1]));
        }
        assert forall|i: int| 0 <= i < (b + p).len() implies ' ' <= #[trigger] (b + p)[i] <= '~' by {
            if i < b.len() {
                assert(is_literal(b[i]));
            } else {
                assert((b + p)[i] == p[i - b.len()]);
            }
        }
        if s.len() > 0 {
            let t = s.skip(1);
            assert forall|i: int| 0 <= i < t.len() implies ' ' <= #[trigger] t[i] <= '~' by {
                assert(t[i] == s[i + 1]);
            }
            lemma_literal_start(m, b, p, t);
            if s.len() >= a.len() {
                assert(t.skip(b.len() as int) =~= s.skip(a.len() as int));
                if s[0] == a[0] && t.take(b.len() as int) == b {
                    assert(s.take(a.len() as int) =~= a) by {
                        assert forall|i: int| 0 <= i < a.len() implies s.take(a.len() as int)[i]
                            == a[i] by {
                            if i > 0 {
                                assert(t.take(b.len() as int)[i - 1] == b[i - 1]);
                            }
                        }
                    }
                }
                if s.take(a.len() as int) == a {
                    assert(s.take(a.len() as int)[0] == s[0]);
                    assert(t.take(b.len() as int) =~= b) by {
                        assert forall|i: int| 0 <= i < b.len() implies t.take(b.len() as int)[i]
                            == b[i] by {
                            assert(s.take(a.len() as int)[i + 1] == a[i + 1]);
                        }
                    }
                }
            }
        }
    }
}

/// A name by itself matches that name alone. With `*` behind it, it matches
/// whatever starts with it; with `?`, what is one character longer; with a range
/// of characters, what has one of them there and ends.
pub proof fn patterns_match_as_written(
    m: Matcher,
    name: Seq<char>,
    a: char,
    b: char,
    s: Seq<char>,
)
    requires
        reads_wildcards(m),
        forall|i: int| 0 <= i < name.len() ==> is_literal(#[trigger] name[i]),
        is_ascii(s),
        is_range_end(a),
        is_range_end(b),
        a <= b,
    ensures
        m(name, s) <==> s == name,
        m(name + seq!['*'], s) <==> text::starts(s, name),
        m(name + seq!['?'], s) <==> text::starts(s, name) && s.len() == name.len() + 1,
        m(name + range_pattern(a, b), s) <==> text::starts(s, name) && s.len() == name.len()
            + 1 && a <= s.last() <= b,
{
    let none = Seq::<char>::empty();
    let n = name.len() as int;
    let star = seq!['*'];
    let one = seq!['?'];
    let range = range_pattern(a, b);
    lemma_literal_start(m, name, none, s);
    lemma_literal_start(m, name, star, s);
    lemma_literal_start(m, name, one, s);
    lemma_literal_start(m, name, range, s);
    assert(name + none =~= name);
    assert(star + none =~= star);
    assert(one + none =~= one);
    assert(range + none =~= range);
    if text::starts(s, name) {
        let t = s.skip(n);
        assert(is_ascii(t)) by {
            assert forall|i: int| 0 <= i < t.len() implies ' ' <= #[trigger] t[i] <= '~' by {
                assert(t[i] == s[i + n]);
            }
        }
        assert(m(none, t) <==> t.len() == 0);
        if t.len() == 0 {
            assert(s =~= name);
        }
        let end = t.skip(t.len() as int);
        assert(is_ascii(end));
        assert(end.len() == 0);
        assert(m(none, end));
        assert(m(star + none, t));
        if t.len() > 0 {
            let u = t.skip(1);
            assert(is_ascii(u)) by {
                assert forall|i: int| 0 <= i < u.len() implies ' ' <= #[trigger] u[i] <= '~' by {
                    assert(u[i] == t[i + 1]);
                }
            }
            assert(m(none, u) <==> u.len() == 0);
        }
        assert(m(one + none, t) <==> t.len() == 1);
        assert(m(range + none, t) <==> t.len() == 1 && a <= t[0] <= b);
    } else {
        if s == name {
            assert(s.take(n) =~= name);
        }
    }
}

/// The CPUs that come together are those of the rules that count, and no others.
pub proof fn cpus_come_from_rules(
    rules: Seq<AffinityRule>,
    sel: spec_fn(int) -> bool,
    n: int,
    c: int,
)
    requires
        0 <= n <= rules.len(),
    ensures
        cpus_of(rules, sel, n).contains(c) <==> exists|i: int|
            0 <= i < n && #[trigger] sel(i) && rules[i].cpus@.contains(c),
    decreases n,
{
    if n > 0 {
        cpus_come_from_rules(rules, sel, n - 1, c);
        if cpus_of(rules, sel, n).contains(c) {
            if sel(n - 1) && rules[n - 1].cpus@.contains(c) {
                assert(sel(n - 1));
            } else {
                let i = choose|i: int|
                    0 <= i < n - 1 && #[trigger] sel(i) && rules[i].cpus@.contains(c);
                assert(sel(i));
            }
        }
    }
}

/// The clamps come together to the narrowest range: the lower one is at least,
/// and the upper one at most, that of every rule that counts and sets it.
pub proof fn clamps_are_narrowest(
    rules: Seq<AffinityRule>,
    sel: spec_fn(int) -> bool,
    n: int,
    i: int,
)
    requires
        0 <= i < n <= rules.len(),
        sel(i),
    ensures
        rules[i].util_min >= 0 ==> clamp_min_of(rules, sel, n) >= rules[i].util_min,
        rules[i].util_max >= 0 ==> 0 <= clamp_max_of(rules, sel, n) <= rules[i].util_max,
    decreases n,
{
    if i < n - 1 {
        clamps_are_narrowest(rules, sel, n - 1, i);
    }
}

/// The clamps that come together are those of rules that count: the lower one
/// is the highest that such a rule sets, the upper one the lowest, and -1 stands
/// where no such rule sets one.
proof fn lemma_clamps_are_set(rules: Seq<AffinityRule>, sel: spec_fn(int) -> bool, n: int)
    requires
        0 <= n <= rules.len(),
    ensures
        clamp_min_of(rules, sel, n) >= 0 ==> exists|i: int|
            0 <= i < n && #[trigger] sel(i) && rules[i].util_min == clamp_min_of(rules, sel, n),
        clamp_max_of(rules, sel, n) >= 0 ==> exists|i: int|
            0 <= i < n && #[trigger] sel(i) && rules[i].util_max == clamp_max_of(rules, sel, n),
        clamp_min_of(rules, sel, n) >= -1,
        clamp_max_of(rules, sel, n) >= -1,
    decreases n,
{
    if n > 0 {
        lemma_clamps_are_set(rules, sel, n - 1);
        let lo = clamp_min_of(rules, sel, n - 1);
        let hi = clamp_max_of(rules, sel, n - 1);
        if lo >= 0 {
            let i = choose|i: int|
                0 <= i < n - 1 && #[trigger] sel(i) && rules[i].util_min == lo;
            assert(sel(i));
        }
        if hi >= 0 {
            let i = choose|i: int|
                0 <= i < n - 1 && #[trigger] sel(i) && rules[i].util_max == hi;
            assert(sel(i));
        }
        if sel(n - 1) {
            assert(sel(n - 1));
        }
    }
}

/// A rule for threads of `pkg` whose pattern matches this name.
spec fn applies_by_name(
    rules: Seq<AffinityRule>,
    hits: Seq<bool>,
    pkg: Seq<char>,
    thread: Seq<char>,
    i: int,
) -> bool {
    &&& rules[i].pkg@ == pkg
    &&& rules[i].thread@.len() > 0
    &&& hits[i]
    &&& thread.len() > 0
    &&& text::byte_len(thread) < 32
}

/// Where a rule for threads matches, the rules for threads that match give the
/// thread all it gets, and the rules for the whole package give nothing: a CPU
/// is given if and only if such a rule names it, each clamp is the narrowest
/// that such a rule sets, and there is no directory.
#[verifier::rlimit(50)]
pub proof fn matching_thread_rules_decide(
    cfg: AppConfig,
    hits: Seq<bool>,
    pkg: Seq<char>,
    thread: Seq<char>,
    k: int,
    c: int,
)
    requires
        0 <= k < cfg.rules@.len(),
        cfg.rules@[k].pkg@ == pkg,
        cfg.rules@[k].thread@.len() > 0,
        hits[k],
        0 < thread.len(),
        text::byte_len(thread) < 32,
    ensures
        ({
            let rules = cfg.rules@;
            let r = affinity_of(cfg, hits, pkg, thread);
            &&& (cfg.rules@[k].cpus@.contains(c) || rules[k].util_min >= 0 || rules[k].util_max
                >= 0) ==> r is Some
            &&& r matches Some(a) ==> {
                &&& a.is_thread_rule
                &&& a.cpuset_dir.len() == 0
                &&& a.cpus.contains(c) <==> exists|i: int|
                    0 <= i < rules.len() && (#[trigger] rules[i]).pkg@ == pkg
                        && rules[i].thread@.len() > 0 && hits[i] && rules[i].cpus@.contains(c)
                &&& rules[k].util_min >= 0 ==> a.util_min >= rules[k].util_min
                &&& rules[k].util_max >= 0 ==> 0 <= a.util_max <= rules[k].util_max
                &&& a.util_min == -1 || exists|i: int|
                    0 <= i < rules.len() && (#[trigger] rules[i]).pkg@ == pkg
                        && rules[i].thread@.len() > 0 && hits[i] && rules[i].util_min == a.util_min
                &&& a.util_max == -1 || exists|i: int|
                    0 <= i < rules.len() && (#[trigger] rules[i]).pkg@ == pkg
                        && rules[i].thread@.len() > 0 && hits[i] && rules[i].util_max == a.util_max
            }
        }),
{
    let rules = cfg.rules@;
    let n = rules.len() as int;
    let sel = |i: int| counts(rules, hits, pkg, thread, i);
    assert(thread_rule_hits(rules, hits, pkg, thread, k));
    assert forall|i: int| #[trigger] sel(i) == applies_by_name(rules, hits, pkg, thread, i) by {}
    assert(sel(k));
    cpus_come_from_rules(rules, sel, n, c);
    clamps_are_narrowest(rules, sel, n, k);
    lemma_clamps_are_set(rules, sel, n);
    let all = cpus_of(rules, sel, n);
    if rules[k].cpus@.contains(c) {
        assert(all.contains(c));
    }
    if exists|i: int|
        0 <= i < rules.len() && (#[trigger] rules[i]).pkg@ == pkg && rules[i].thread@.len() > 0
            && hits[i] && rules[i].cpus@.contains(c) {
        let i = choose|i: int|
            0 <= i < rules.len() && (#[trigger] rules[i]).pkg@ == pkg && rules[i].thread@.len() > 0
                && hits[i] && rules[i].cpus@.contains(c);
        assert(sel(i));
    }
    if all.contains(c) {
        let i = choose|i: int| 0 <= i < n && #[trigger] sel(i) && rules[i].cpus@.contains(c);
        assert(rules[i].pkg@ == pkg);
    }
    let lo = clamp_min_of(rules, sel, n);
    let hi = clamp_max_of(rules, sel, n);
    if lo >= 0 {
        let i = choose|i: int| 0 <= i < n && #[trigger] sel(i) && rules[i].util_min == lo;
        assert(rules[i].pkg@ == pkg);
    }
    if hi >= 0 {
        let i = choose|i: int| 0 <= i < n && #[trigger] sel(i) && rules[i].util_max == hi;
        assert(rules[i].pkg@ == pkg);
    }
}

/// Where no rule for threads matches, the rules for the whole package give the
/// thread all it gets, in the same way.
#[verifier::rlimit(50)]
pub proof fn package_rules_are_the_fallback(
    cfg: AppConfig,
    hits: Seq<bool>,
    pkg: Seq<char>,
    thread: Seq<char>,
    k: int,
    c: int,
)
    requires
        forall|i: int|
            0 <= i < cfg.rules@.len() && (#[trigger] cfg.rules@[i]).pkg@ == pkg
                && cfg.rules@[i].thread@.len() > 0 ==> !hits[i] || thread.len() == 0
                || text::byte_len(thread) >= 32,
        0 <= k < cfg.rules@.len(),
        cfg.rules@[k].pkg@ == pkg,
        cfg.rules@[k].thread@.len() == 0,
    ensures
        ({
            let rules = cfg.rules@;
            let r = affinity_of(cfg, hits, pkg, thread);
            &&& (cfg.rules@[k].cpus@.contains(c) || rules[k].util_min >= 0 || rules[k].util_max
                >= 0) ==> r is Some
            &&& r matches Some(a) ==> {
                &&& !a.is_thread_rule
                &&& a.cpus.contains(c) <==> exists|i: int|
                    0 <= i < rules.len() && (#[trigger] rules[i]).pkg@ == pkg
                        && rules[i].thread@.len() == 0 && rules[i].cpus@.contains(c)
                &&& rules[k].util_min >= 0 ==> a.util_min >= rules[k].util_min
                &&& rules[k].util_max >= 0 ==> 0 <= a.util_max <= rules[k].util_max
                &&& a.util_min == -1 || exists|i: int|
                    0 <= i < rules.len() && (#[trigger] rules[i]).pkg@ == pkg
                        && rules[i].thread@.len() == 0 && rules[i].util_min == a.util_min
                &&& a.util_max == -1 || exists|i: int|
                    0 <= i < rules.len() && (#[trigger] rules[i]).pkg@ == pkg
                        && rules[i].thread@.len() == 0 && rules[i].util_max == a.util_max
                &&& (forall|i: int|
                    0 <= i < rules.len() && i != k ==> (#[trigger] rules[i]).pkg@ != pkg
                        || rules[i].thread@.len() > 0) ==> a.cpuset_dir == rules[k].cpuset_dir@
                &&& (exists|i: int|
                    0 <= i < rules.len() && i != k && (#[trigger] rules[i]).pkg@ == pkg
                        && rules[i].thread@.len() == 0) ==> a.cpuset_dir.len() == 0
            }
        }),
{
    let rules = cfg.rules@;
    let n = rules.len() as int;
    let sel = |i: int| counts(rules, hits, pkg, thread, i);
    assert forall|i: int| 0 <= i < n implies !#[trigger] thread_rule_hits(
        rules,
        hits,
        pkg,
        thread,
        i,
    ) by {
        assert(rules[i].pkg@ == pkg || rules[i].pkg@ != pkg);
    }
    assert(!any_thread_rule(rules, hits, pkg, thread));
    assert forall|i: int| #[trigger] sel(i) == (rules[i].pkg@ == pkg && rules[i].thread@.len() == 0) by {}
    assert(sel(k));
    cpus_come_from_rules(rules, sel, n, c);
    clamps_are_narrowest(rules, sel, n, k);
    lemma_clamps_are_set(rules, sel, n);
    lemma_dirs_count(rules, sel, n, k);
    let all = cpus_of(rules, sel, n);
    if exists|i: int|
        0 <= i < rules.len() && (#[trigger] rules[i]).pkg@ == pkg && rules[i].thread@.len() == 0
            && rules[i].cpus@.contains(c) {
        let i = choose|i: int|
            0 <= i < rules.len() && (#[trigger] rules[i]).pkg@ == pkg && rules[i].thread@.len()
                == 0 && rules[i].cpus@.contains(c);
        assert(sel(i));
    }
    if all.contains(c) {
        let i = choose|i: int| 0 <= i < n && #[trigger] sel(i) && rules[i].cpus@.contains(c);
        assert(rules[i].pkg@ == pkg);
    }
    let lo = clamp_min_of(rules, sel, n);
    let hi = clamp_max_of(rules, sel, n);
    if lo >= 0 {
        let i = choose|i: int| 0 <= i < n && #[trigger] sel(i) && rules[i].util_min == lo;
        assert(rules[i].pkg@ == pkg);
    }
    if hi >= 0 {
        let i = choose|i: int| 0 <= i < n && #[trigger] sel(i) && rules[i].util_max == hi;
        assert(rules[i].pkg@ == pkg);
    }
    if exists|i: int|
        0 <= i < rules.len() && i != k && (#[trigger] rules[i]).pkg@ == pkg
            && rules[i].thread@.len() == 0 {
        let i = choose|i: int|
            0 <= i < rules.len() && i != k && (#[trigger] rules[i]).pkg@ == pkg
                && rules[i].thread@.len() == 0;
        assert(sel(i));
        lemma_dirs_two(rules, sel, n, k, i);
    }
    if forall|i: int|
        0 <= i < rules.len() && i != k ==> (#[trigger] rules[i]).pkg@ != pkg
            || rules[i].thread@.len() > 0 {
        assert forall|i: int| 0 <= i < n && i != k implies !#[trigger] sel(i) by {
            assert(rules[i].pkg@ != pkg || rules[i].thread@.len() > 0);
        }
        lemma_dirs_one(rules, sel, n, k);
    }
}

proof fn lemma_dirs_count(rules: Seq<AffinityRule>, sel: spec_fn(int) -> bool, n: int, k: int)
    requires
        0 <= k < n <= rules.len(),
        sel(k),
    ensures
        dirs_of(rules, sel, n).len() > 0,
    decreases n,
{
    if k < n - 1 {
        lemma_dirs_count(rules, sel, n - 1, k);
    }
}

/// Two rules that count give two directories.
proof fn lemma_dirs_two(rules: Seq<AffinityRule>, sel: spec_fn(int) -> bool, n: int, k: int, i: int)
    requires
        0 <= k < n <= rules.len(),
        0 <= i < n,
        i != k,
        sel(k),
        sel(i),
    ensures
        dirs_of(rules, sel, n).len() > 1,
    decreases n,
{
    if k == n - 1 {
        lemma_dirs_count(rules, sel, n - 1, i);
    } else if i == n - 1 {
        lemma_dirs_count(rules, sel, n - 1, k);
    } else {
        lemma_dirs_two(rules, sel, n - 1, k, i);
    }
}

/// One rule that counts gives its own directory.
proof fn lemma_dirs_one(rules: Seq<AffinityRule>, sel: spec_fn(int) -> bool, n: int, k: int)
    requires
        0 <= n <= rules.len(),
        0 <= k,
        sel(k),
        forall|i: int| 0 <= i < n && i != k ==> !#[trigger] sel(i),
    ensures
        dirs_of(rules, sel, n) == if k < n {
            seq![rules[k].cpuset_dir@]
        } else {
            Seq::<Seq<char>>::empty()
        },
    decreases n,
{
    if n > 0 {
        lemma_dirs_one(rules, sel, n - 1, k);
        assert(dirs_of(rules, sel, n) =~= if k < n {
            seq![rules[k].cpuset_dir@]
        } else {
            Seq::<Seq<char>>::empty()
        });
    }
}

/// The clamps of rules none of which counts are not set.
proof fn lemma_no_clamps(rules: Seq<AffinityRule>, sel: spec_fn(int) -> bool, n: int)
    requires
        0 <= n <= rules.len(),
        forall|i: int| 0 <= i < n ==> !#[trigger] sel(i),
    ensures
        clamp_min_of(rules, sel, n) == -1,
        clamp_max_of(rules, sel, n) == -1,
    decreases n,
{
    if n > 0 {
        lemma_no_clamps(rules, sel, n - 1);
    }
}

/// A thread that no rule for threads matches, of a package without a rule for
/// the whole package, gets nothing.
pub proof fn no_match_no_affinity(
    cfg: AppConfig,
    hits: Seq<bool>,
    pkg: Seq<char>,
    thread: Seq<char>,
)
    requires
        !any_thread_rule(cfg.rules@, hits, pkg, thread),
        forall|i: int|
            0 <= i < cfg.rules@.len() ==> !#[trigger] package_rule(cfg.rules@, pkg, i),
    ensures
        affinity_of(cfg, hits, pkg, thread) is None,
{
    let rules = cfg.rules@;
    let n = rules.len() as int;
    let sel = |i: int| counts(rules, hits, pkg, thread, i);
    assert forall|i: int| 0 <= i < n implies !#[trigger] sel(i) by {
        assert(!package_rule(rules, pkg, i));
    }
    assert forall|c: int| !cpus_of(rules, sel, n).contains(c) by {
        cpus_come_from_rules(rules, sel, n, c);
    }
    assert(cpus_of(rules, sel, n) =~= Set::<int>::empty());
    lemma_no_clamps(rules, sel, n);
}

/// A thread of a package that has no rules gets nothing.
pub proof fn no_rules_no_affinity(
    cfg: AppConfig,
    hits: Seq<bool>,
    pkg: Seq<char>,
    thread: Seq<char>,
)
    requires
        cfg.wf(),
        !cfg.pkgs@.contains(pkg),
    ensures
        affinity_of(cfg, hits, pkg, thread) is None,
{
    let rules = cfg.rules@;
    let vs = crate::config::rule_views(rules);
    assert forall|i: int| 0 <= i < rules.len() implies rules[i].pkg@ != pkg by {
        assert(vs[i].pkg == rules[i].pkg@);
    }
    no_match_no_affinity(cfg, hits, pkg, thread);
}

} // verus!
