//! Sets of CPUs, the ranges they are written as, and the tiers of cores that a
//! machine has.
use vstd::prelude::*;

use crate::number;
use crate::text;

verus! {

broadcast use vstd::string::group_string_axioms;

pub const CPU_SETSIZE: usize = 1024;

pub const CPU_WORD_BITS: usize = 64;

pub const CPU_WORDS: usize = 16;

/// The name of the daemon's own directory under `/dev/cpuset`.
pub const DEFAULT_CPUSET_NAME: &'static str = "AppOpt";

/// A set of CPU numbers below [`CPU_SETSIZE`], one bit each.
#[derive(Clone, Copy)]
pub struct CpuSet {
    pub bits: [u64; CPU_WORDS],
}

/// Bit `b` of `w` is set.
pub open spec fn bit(w: u64, b: int) -> bool {
    w & (1u64 << (b as u64)) != 0
}

impl CpuSet {
    /// CPU `i` is in the set.
    pub open spec fn has(self, i: int) -> bool {
        0 <= i < CPU_SETSIZE && bit(self.bits@[i / 64], i % 64)
    }
}

impl View for CpuSet {
    type V = Set<int>;

    open spec fn view(&self) -> Set<int> {
        Set::new(|i: int| self.has(i))
    }
}

/// The CPU numbers that a set can hold.
pub open spec fn cpu_numbers() -> Set<int> {
    Set::new(|i: int| 0 <= i < CPU_SETSIZE)
}

proof fn lemma_bit_zero(b: u64)
    ensures
        0u64 & (1u64 << b) == 0,
{
    assert(0u64 & (1u64 << b) == 0) by (bit_vector);
}

proof fn lemma_bit_set(w: u64, b: u64, c: u64)
    requires
        b < 64,
        c < 64,
    ensures
        ((w | (1u64 << b)) & (1u64 << c) != 0) <==> (b == c || w & (1u64 << c) != 0),
{
    assert(((w | (1u64 << b)) & (1u64 << c) != 0) <==> (b == c || w & (1u64 << c) != 0))
        by (bit_vector)
        requires
            b < 64,
            c < 64,
    ;
}

proof fn lemma_bit_or(x: u64, y: u64, c: u64)
    ensures
        ((x | y) & (1u64 << c) != 0) <==> (x & (1u64 << c) != 0 || y & (1u64 << c) != 0),
{
    assert(((x | y) & (1u64 << c) != 0) <==> (x & (1u64 << c) != 0 || y & (1u64 << c) != 0))
        by (bit_vector);
}

impl Default for CpuSet {
    fn default() -> (r: CpuSet)
        ensures
            r@ == Set::<int>::empty(),
    {
        CpuSet::new()
    }
}

impl CpuSet {
    /// The empty set.
    pub fn new() -> (r: CpuSet)
        ensures
            r@ == Set::<int>::empty(),
    {
        let r = CpuSet { bits: [0u64;CPU_WORDS] };
        proof {
            assert forall|i: int| !r.has(i) by {
                if 0 <= i < CPU_SETSIZE {
                    lemma_bit_zero((i % 64) as u64);
                }
            }
            assert(r@ =~= Set::<int>::empty());
        }
        r
    }

    /// Adds a CPU; numbers the set cannot hold are ignored.
    pub fn set(&mut self, cpu: usize)
        ensures
            final(self)@ == if cpu < CPU_SETSIZE {
                old(self)@.insert(cpu as int)
            } else {
                old(self)@
            },
    {
        if cpu < CPU_SETSIZE {
            let k: usize = cpu / CPU_WORD_BITS;
            let b: u64 = (cpu % CPU_WORD_BITS) as u64;
            let ghost before = *self;
            let w: u64 = self.bits[k];
            self.bits[k] = w | (1u64 << b);
            proof {
                assert forall|i: int| self.has(i) <==> (before.has(i) || i == cpu) by {
                    if 0 <= i < CPU_SETSIZE {
                        lemma_bit_set(w, b, (i % 64) as u64);
                        if i / 64 != k {
                            assert(self.bits@[i / 64] == before.bits@[i / 64]);
                        }
                    }
                }
                assert forall|i: int| self@.contains(i) == before@.insert(cpu as int).contains(i) by {
                    assert(self.has(i) <==> (before.has(i) || i == cpu));
                }
                assert(self@ =~= before@.insert(cpu as int));
            }
        }
    }

    /// Whether a CPU is in the set.
    pub fn is_set(&self, cpu: usize) -> (r: bool)
        ensures
            r == self@.contains(cpu as int),
    {
        cpu < CPU_SETSIZE && self.bits[cpu / CPU_WORD_BITS] & (1u64 << ((cpu % CPU_WORD_BITS)
            as u64)) != 0
    }

    /// The number of CPUs in the set.
    pub fn count(&self) -> (r: usize)
        ensures
            self@.finite(),
            r == self@.len(),
    {
        let mut n: usize = 0;
        let mut i: usize = 0;
        assert(self@.filter(|c: int| c < 0) =~= Set::<int>::empty());
        while i < CPU_SETSIZE
            invariant
                i <= CPU_SETSIZE,
                n <= i,
                self@.filter(|c: int| c < i).finite(),
                n == self@.filter(|c: int| c < i).len(),
            decreases CPU_SETSIZE - i,
        {
            let ghost lo = self@.filter(|c: int| c < i);
            let ghost hi = self@.filter(|c: int| c < i + 1);
            if self.is_set(i) {
                n += 1;
                assert(hi =~= lo.insert(i as int));
            } else {
                assert(hi =~= lo);
            }
            i += 1;
        }
        assert(self@.filter(|c: int| c < i) =~= self@);
        n
    }

    /// Adds every CPU of another set.
    pub fn or(&mut self, other: &CpuSet)
        ensures
            final(self)@ == old(self)@.union(other@),
    {
        let ghost before = *self;
        let mut k: usize = 0;
        while k < CPU_WORDS
            invariant
                k <= CPU_WORDS,
                forall|j: int| 0 <= j < k ==> self.bits@[j] == before.bits@[j] | other.bits@[j],
                forall|j: int| k <= j < CPU_WORDS ==> self.bits@[j] == before.bits@[j],
            decreases CPU_WORDS - k,
        {
            self.bits[k] = self.bits[k] | other.bits[k];
            k += 1;
        }
        proof {
            assert forall|i: int| self.has(i) <==> (before.has(i) || other.has(i)) by {
                if 0 <= i < CPU_SETSIZE {
                    lemma_bit_or(
                        before.bits@[i / 64],
                        other.bits@[i / 64],
                        (i % 64) as u64,
                    );
                }
            }
            assert(self@ =~= before@.union(other@));
        }
    }

    /// Whether two sets hold the same CPUs.
    pub fn same_as(&self, other: &CpuSet) -> (r: bool)
        ensures
            r == (self@ == other@),
    {
        let mut i: usize = 0;
        while i < CPU_SETSIZE
            invariant
                i <= CPU_SETSIZE,
                forall|c: int| 0 <= c < i ==> (self@.contains(c) <==> other@.contains(c)),
            decreases CPU_SETSIZE - i,
        {
            if self.is_set(i) != other.is_set(i) {
                assert(self@.contains(i as int) != other@.contains(i as int));
                return false;
            }
            i += 1;
        }
        assert(self@ =~= other@);
        true
    }
}

/// The last CPU of the unbroken run that starts at `i`.
pub open spec fn run_end(s: Set<int>, i: int) -> int
    decreases CPU_SETSIZE - i,
{
    if i + 1 < CPU_SETSIZE && s.contains(i + 1) {
        run_end(s, i + 1)
    } else {
        i
    }
}

/// The unbroken runs of a set from `i` on, in ascending order.
pub open spec fn runs_from(s: Set<int>, i: int) -> Seq<(int, int)>
    decreases CPU_SETSIZE - i,
{
    if i >= CPU_SETSIZE {
        seq![]
    } else if s.contains(i) {
        let j = run_end(s, i);
        if !(i <= j < CPU_SETSIZE) {
            seq![]
        } else {
            seq![(i, j)] + runs_from(s, j + 1)
        }
    } else {
        runs_from(s, i + 1)
    }
}

/// One run as text: `lo` alone, or `lo-hi`.
pub open spec fn run_text(r: (int, int)) -> Seq<char> {
    if r.0 == r.1 {
        number::dec(r.0 as nat)
    } else {
        number::dec(r.0 as nat) + seq!['-'] + number::dec(r.1 as nat)
    }
}

/// The runs as text, with commas between them.
pub open spec fn runs_text(rs: Seq<(int, int)>) -> Seq<char> {
    text::joined(rs.map_values(|r: (int, int)| run_text(r)), seq![','])
}

/// A set as the shortest list of ranges.
pub open spec fn range_text(s: Set<int>) -> Seq<char> {
    runs_text(runs_from(s, 0))
}

proof fn lemma_run_end(s: Set<int>, i: int, j: int)
    requires
        0 <= i <= j < CPU_SETSIZE,
        forall|c: int| i < c <= j ==> s.contains(c),
        j + 1 < CPU_SETSIZE ==> !s.contains(j + 1),
    ensures
        run_end(s, i) == j,
    decreases j - i,
{
    if i < j {
        assert(s.contains(i + 1));
        lemma_run_end(s, i + 1, j);
    }
}

/// Writes one run behind the runs that `out` already holds.
fn push_range(out: &mut String, lo: usize, hi: usize, Ghost(done): Ghost<Seq<(int, int)>>)
    requires
        old(out)@ == runs_text(done),
    ensures
        final(out)@ == runs_text(done.push((lo as int, hi as int))),
{
    let ghost before = done.map_values(|r: (int, int)| run_text(r));
    let ghost after = done.push((lo as int, hi as int)).map_values(|r: (int, int)| run_text(r));
    assert(after.drop_last() == before);
    assert(after.last() == run_text((lo as int, hi as int)));
    proof {
        if done.len() > 0 {
            lemma_runs_text_nonempty(done);
        }
    }
    if !out.as_str().is_empty() {
        out.push(',');
    }
    number::push_u64(out, lo as u64);
    if lo != hi {
        out.push('-');
        number::push_u64(out, hi as u64);
    }
    proof {
        let sep = seq![','];
        if done.len() > 0 {
            assert(text::joined(after, sep) == text::joined(before, sep) + sep + after.last());
            assert(out@ =~= text::joined(before, sep) + sep + after.last());
        } else {
            assert(out@ =~= after.last());
        }
    }
}

proof fn lemma_runs_text_nonempty(rs: Seq<(int, int)>)
    requires
        rs.len() > 0,
    ensures
        runs_text(rs).len() > 0,
{
    let parts = rs.map_values(|r: (int, int)| run_text(r));
    let last = rs.last();
    number::dec_reads_back(last.0 as nat);
    number::dec_reads_back(last.1 as nat);
    assert(parts.last() == run_text(last));
    assert(parts.last().len() > 0);
}

impl CpuSet {
    /// The set as a list of ranges, such as `0-3,6`.
    pub fn to_range_string(self) -> (r: String)
        ensures
            r@ == range_text(self@),
    {
        let mut out = String::new();
        let mut i: usize = 0;
        let ghost mut done: Seq<(int, int)> = seq![];
        assert(runs_text(done) == Seq::<char>::empty());
        while i < CPU_SETSIZE
            invariant
                i <= CPU_SETSIZE,
                out@ == runs_text(done),
                runs_from(self@, 0) == done + runs_from(self@, i as int),
            decreases CPU_SETSIZE - i,
        {
            if self.is_set(i) {
                let mut j: usize = i;
                while j + 1 < CPU_SETSIZE && self.is_set(j + 1)
                    invariant
                        i <= j < CPU_SETSIZE,
                        forall|c: int| i < c <= j ==> self@.contains(c),
                    decreases CPU_SETSIZE - j,
                {
                    j += 1;
                }
                proof {
                    lemma_run_end(self@, i as int, j as int);
                }
                push_range(&mut out, i, j, Ghost(done));
                proof {
                    let here = (i as int, j as int);
                    assert(done + (seq![here] + runs_from(self@, j + 1)) == done.push(here)
                        + runs_from(self@, j + 1));
                    done = done.push(here);
                }
                i = j + 1;
            } else {
                i += 1;
            }
        }
        assert(done + runs_from(self@, i as int) == done);
        out
    }
}

/// The range that one list item names, if it names one: its two ends in
/// ascending order. A second end that is no number counts as the first.
pub open spec fn item_range(t: Seq<char>) -> Option<(nat, nat)> {
    let max = usize::MAX as nat;
    let k = text::first(t, '-') as int;
    let a = number::unsigned(t.take(k), max);
    match a {
        Some(lo) => {
            if lo == max {
                None
            } else if k < t.len() {
                let hi = match number::unsigned(t.skip(k + 1), max) {
                    Some(b) => b,
                    None => lo,
                };
                if lo > hi {
                    Some((hi, lo))
                } else {
                    Some((lo, hi))
                }
            } else {
                Some((lo, lo))
            }
        },
        None => None,
    }
}

/// The list item `t` names CPU `i`.
pub open spec fn item_names(t: Seq<char>, i: int) -> bool {
    match item_range(t) {
        Some((lo, hi)) => lo <= i <= hi,
        None => false,
    }
}

/// The CPUs that a list of ranges names, as far as they are in `present`.
pub open spec fn listed(spec: Seq<char>, present: Set<int>) -> Set<int> {
    Set::new(
        |i: int|
            cpu_numbers().contains(i) && present.contains(i) && exists|k: int|
                0 <= k < text::pieces(spec, ',').len() && #[trigger] item_names(
                    text::trimmed(text::pieces(spec, ',')[k]),
                    i,
                ),
    )
}

spec fn listed_upto(spec: Seq<char>, present: Set<int>, n: int) -> Set<int> {
    Set::new(
        |i: int|
            cpu_numbers().contains(i) && present.contains(i) && exists|k: int|
                0 <= k < n && #[trigger] item_names(
                    text::trimmed(text::pieces(spec, ',')[k]),
                    i,
                ),
    )
}

/// The range that one trimmed list item names.
fn parse_item(part: &str) -> (r: Option<(usize, usize)>)
    ensures
        match r {
            Some((lo, hi)) => item_range(part@) == Some((lo as nat, hi as nat)) && lo <= hi,
            None => item_range(part@) is None,
        },
{
    match text::find(part, '-') {
        Some(pos) => {
            let a: usize = match number::parse_usize(text::head(part, pos)) {
                Some(a) => a,
                None => return None,
            };
            let b: usize = match number::parse_usize(text::tail(part, pos + 1)) {
                Some(b) => b,
                None => a,
            };
            if a == usize::MAX {
                return None;
            }
            if a > b {
                Some((b, a))
            } else {
                Some((a, b))
            }
        },
        None => {
            assert(part@.take(part@.len() as int) == part@);
            match number::parse_usize(part) {
                Some(a) => if a == usize::MAX {
                    None
                } else {
                    Some((a, a))
                },
                None => None,
            }
        },
    }
}

/// Reads a list of CPU ranges; without `present` every number counts.
pub fn parse_cpu_ranges(spec: &str, present: Option<&CpuSet>) -> (r: CpuSet)
    ensures
        r@ == listed(
            spec@,
            match present {
                Some(p) => p@,
                None => cpu_numbers(),
            },
        ),
{
    let ghost all = match present {
        Some(p) => p@,
        None => cpu_numbers(),
    };
    let mut set = CpuSet::new();
    let parts = text::split(spec, ',');
    let mut k: usize = 0;
    assert(set@ =~= listed_upto(spec@, all, 0));
    while k < parts.len()
        invariant
            k <= parts.len(),
            text::views(parts@) == text::pieces(spec@, ','),
            all == (match present {
                Some(p) => p@,
                None => cpu_numbers(),
            }),
            set@ == listed_upto(spec@, all, k as int),
        decreases parts.len() - k,
    {
        let part = text::trim(parts[k]);
        assert(part@ == text::trimmed(text::pieces(spec@, ',')[k as int]));
        let ghost before = set@;
        if let Some((lo, hi)) = parse_item(part) {
            let top: usize = if hi < CPU_SETSIZE {
                hi
            } else {
                CPU_SETSIZE - 1
            };
            let mut i: usize = lo;
            while i <= top
                invariant
                    lo <= i,
                    top < CPU_SETSIZE,
                    all == (match present {
                        Some(p) => p@,
                        None => cpu_numbers(),
                    }),
                    set@ == before.union(
                        Set::new(|c: int| lo <= c < i && c <= top && all.contains(c)),
                    ),
                decreases top + 1 - i,
            {
                let here: bool = match present {
                    Some(p) => p.is_set(i),
                    None => true,
                };
                if here {
                    set.set(i);
                }
                assert(set@ =~= before.union(
                    Set::new(|c: int| lo <= c < i + 1 && c <= top && all.contains(c)),
                ));
                i += 1;
            }
            assert(set@ =~= before.union(
                Set::new(|c: int| lo <= c <= top && all.contains(c)),
            ));
            proof {
                assert forall|c: int|
                    #![trigger set@.contains(c)]
                    set@.contains(c) <==> listed_upto(spec@, all, k + 1).contains(c) by {
                    assert(item_names(part@, c) <==> lo <= c <= hi);
                    if item_names(part@, c) && cpu_numbers().contains(c) && all.contains(c) {
                        assert(item_names(
                            text::trimmed(text::pieces(spec@, ',')[k as int]),
                            c,
                        ));
                        assert(set@.contains(c));
                    }
                }
            }
            assert(set@ =~= listed_upto(spec@, all, k + 1));
        } else {
            assert(set@ =~= listed_upto(spec@, all, k + 1)) by {
                assert forall|c: int| !item_names(part@, c) by {}
            }
        }
        k += 1;
    }
    assert(set@ =~= listed(spec@, all));
    set
}

/// The CPUs and memory nodes of a machine, and its tiers of cores.
pub struct CpuTopology {
    pub present_cpus: CpuSet,
    pub present_str: String,
    pub mems_str: String,
    pub cpuset_enabled: bool,
    pub e_core: CpuSet,
    pub p_core: CpuSet,
    pub hp_core: CpuSet,
}

/// The CPUs that one item of a CPU specification stands for: a tier of cores
/// by name, or a range.
pub open spec fn item_cpus(t: Seq<char>, topo: CpuTopology) -> Set<int> {
    if t == "e-core"@ {
        topo.e_core@
    } else if t == "p-core"@ {
        topo.p_core@
    } else if t == "hp-core"@ {
        topo.hp_core@
    } else if t == "all-core"@ {
        topo.present_cpus@
    } else {
        listed(t, topo.present_cpus@)
    }
}

/// The CPUs that a specification stands for: the union over its items.
pub open spec fn spec_cpus(spec: Seq<char>, topo: CpuTopology) -> Set<int> {
    Set::new(
        |i: int|
            exists|k: int|
                0 <= k < text::pieces(spec, ',').len() && #[trigger] item_cpus(
                    text::trimmed(text::pieces(spec, ',')[k]),
                    topo,
                ).contains(i),
    )
}

spec fn spec_cpus_upto(spec: Seq<char>, topo: CpuTopology, n: int) -> Set<int> {
    Set::new(
        |i: int|
            exists|k: int|
                0 <= k < n && #[trigger] item_cpus(
                    text::trimmed(text::pieces(spec, ',')[k]),
                    topo,
                ).contains(i),
    )
}

/// Reads a CPU specification: names of core tiers mixed with ranges.
pub fn parse_cpu_spec(spec: &str, topo: &CpuTopology) -> (r: CpuSet)
    ensures
        r@ == spec_cpus(spec@, *topo),
{
    let mut set = CpuSet::new();
    let parts = text::split(spec, ',');
    let mut k: usize = 0;
    assert(set@ =~= spec_cpus_upto(spec@, *topo, 0));
    while k < parts.len()
        invariant
            k <= parts.len(),
            text::views(parts@) == text::pieces(spec@, ','),
            set@ == spec_cpus_upto(spec@, *topo, k as int),
        decreases parts.len() - k,
    {
        let part = text::trim(parts[k]);
        assert(part@ == text::trimmed(text::pieces(spec@, ',')[k as int]));
        let ghost before = set@;
        let seg: CpuSet = if text::same(part, "e-core") {
            topo.e_core
        } else if text::same(part, "p-core") {
            topo.p_core
        } else if text::same(part, "hp-core") {
            topo.hp_core
        } else if text::same(part, "all-core") {
            topo.present_cpus
        } else {
            parse_cpu_ranges(part, Some(&topo.present_cpus))
        };
        assert(seg@ == item_cpus(part@, *topo));
        set.or(&seg);
        proof {
            assert forall|c: int|
                #![trigger set@.contains(c)]
                set@.contains(c) <==> spec_cpus_upto(spec@, *topo, k + 1).contains(c) by {
                if seg@.contains(c) {
                    assert(item_cpus(
                        text::trimmed(text::pieces(spec@, ',')[k as int]),
                        *topo,
                    ).contains(c));
                }
            }
            assert(set@ =~= spec_cpus_upto(spec@, *topo, k + 1));
        }
        k += 1;
    }
    assert(set@ =~= spec_cpus(spec@, *topo));
    set
}

impl Clone for CpuTopology {
    fn clone(&self) -> (r: CpuTopology)
        ensures
            r == *self,
    {
        CpuTopology {
            present_cpus: self.present_cpus,
            present_str: self.present_str.clone(),
            mems_str: self.mems_str.clone(),
            cpuset_enabled: self.cpuset_enabled,
            e_core: self.e_core,
            p_core: self.p_core,
            hp_core: self.hp_core,
        }
    }
}

/// What the kernel says of one cpufreq policy: the name of its directory and
/// the text of its `cpuinfo_max_freq` and `related_cpus`, where they were read.
pub struct Policy {
    pub name: String,
    pub max_freq: Option<String>,
    pub related_cpus: Option<String>,
}

/// The text of an optional string; nothing stands for the empty text.
pub open spec fn text_or_empty(s: Option<String>) -> Seq<char> {
    match s {
        Some(t) => t@,
        None => seq![],
    }
}

/// The policy's list of CPUs names `c`.
pub open spec fn policy_lists(p: Policy, c: int) -> bool {
    exists|k: int|
        0 <= k < text::words(text_or_empty(p.related_cpus)).len() && number::unsigned(
            #[trigger] text::words(text_or_empty(p.related_cpus))[k],
            usize::MAX as nat,
        ) == Some(c as nat) && c >= 0
}

/// The highest frequency of a policy; none where its directory is no policy,
/// the frequency is missing or zero, or it has no CPUs.
pub open spec fn policy_freq(p: Policy) -> Option<nat> {
    match number::unsigned(text::trimmed(text_or_empty(p.max_freq)), u64::MAX as nat) {
        Some(f) => {
            if text::starts(p.name@, "policy"@) && f != 0 && exists|c: int| policy_lists(p, c) {
                Some(f)
            } else {
                None
            }
        },
        None => None,
    }
}

/// `f` is the frequency of some policy and none has a lower one.
pub open spec fn is_lowest(ps: Seq<Policy>, f: nat) -> bool {
    &&& exists|i: int| 0 <= i < ps.len() && policy_freq(#[trigger] ps[i]) == Some(f)
    &&& forall|i: int|
        0 <= i < ps.len() ==> (policy_freq(#[trigger] ps[i]) matches Some(g) ==> f <= g)
}

/// `f` is the frequency of some policy and none has a higher one.
pub open spec fn is_highest(ps: Seq<Policy>, f: nat) -> bool {
    &&& exists|i: int| 0 <= i < ps.len() && policy_freq(#[trigger] ps[i]) == Some(f)
    &&& forall|i: int|
        0 <= i < ps.len() ==> (policy_freq(#[trigger] ps[i]) matches Some(g) ==> g <= f)
}

/// A tier of cores.
#[derive(Clone, Copy, PartialEq, Eq, Structural, Debug)]
pub enum Tier {
    Efficiency,
    Performance,
    Prime,
}

/// The tier that a frequency belongs to: the lowest is the efficiency tier,
/// the highest (where it is another) the prime tier, and all between the
/// performance tier.
pub open spec fn tier_of(ps: Seq<Policy>, f: nat) -> Tier {
    if is_lowest(ps, f) {
        Tier::Efficiency
    } else if is_highest(ps, f) {
        Tier::Prime
    } else {
        Tier::Performance
    }
}

/// The CPUs of a tier.
pub open spec fn tier_cpus(ps: Seq<Policy>, t: Tier) -> Set<int> {
    Set::new(
        |c: int|
            cpu_numbers().contains(c) && exists|i: int|
                0 <= i < ps.len() && #[trigger] policy_in_tier(ps, i, t) && policy_lists(ps[i], c),
    )
}

/// Policy `i` has a frequency, and it belongs to tier `t`.
pub open spec fn policy_in_tier(ps: Seq<Policy>, i: int, t: Tier) -> bool {
    policy_freq(ps[i]) matches Some(f) && tier_of(ps, f) == t
}

spec fn tier_cpus_upto(ps: Seq<Policy>, t: Tier, n: int) -> Set<int> {
    Set::new(
        |c: int|
            cpu_numbers().contains(c) && exists|i: int|
                0 <= i < n && #[trigger] policy_in_tier(ps, i, t) && policy_lists(ps[i], c),
    )
}

/// The CPUs that a policy lists.
fn policy_cpus(p: &Policy) -> (r: Vec<usize>)
    ensures
        forall|c: int| policy_lists(*p, c) <==> exists|j: int| 0 <= j < r.len() && r@[j] == c,
{
    let mut r: Vec<usize> = Vec::new();
    let empty = String::new();
    assert(empty@ == Seq::<char>::empty());
    let t: &str = match &p.related_cpus {
        Some(t) => t.as_str(),
        None => empty.as_str(),
    };
    assert(t@ == text_or_empty(p.related_cpus));
    let ws = text::split_whitespace(t);
    let ghost all = text::words(t@);
    let mut k: usize = 0;
    while k < ws.len()
        invariant
            k <= ws.len(),
            text::views(ws@) == all,
            forall|j: int|
                #![trigger r@[j]]
                0 <= j < r.len() ==> exists|m: int|
                    0 <= m < k && number::unsigned(#[trigger] all[m], usize::MAX as nat) == Some(
                        r@[j] as nat,
                    ),
            forall|m: int|
                0 <= m < k ==> (number::unsigned(#[trigger] all[m], usize::MAX as nat) matches Some(
                    v,
                ) ==> exists|j: int| 0 <= j < r.len() && r@[j] == v),
        decreases ws.len() - k,
    {
        assert(ws@[k as int]@ == all[k as int]);
        let ghost before = r@;
        if let Some(c) = number::parse_usize(ws[k]) {
            r.push(c);
            assert(r@[r.len() - 1] == c);
        }
        proof {
            assert forall|m: int| 0 <= m < k + 1 implies (number::unsigned(
                #[trigger] all[m],
                usize::MAX as nat,
            ) matches Some(v) ==> exists|j: int| 0 <= j < r.len() && r@[j] == v) by {
                if let Some(v) = number::unsigned(all[m], usize::MAX as nat) {
                    if m < k {
                        let j = choose|j: int| 0 <= j < before.len() && before[j] == v;
                        assert(r@[j] == before[j]);
                    }
                }
            }
            assert forall|j: int| #![trigger r@[j]] 0 <= j < r.len() implies exists|m: int|
                0 <= m < k + 1 && number::unsigned(#[trigger] all[m], usize::MAX as nat) == Some(
                    r@[j] as nat,
                ) by {
                if j < before.len() {
                    assert(before[j] == r@[j]);
                    let m = choose|m: int|
                        0 <= m < k && number::unsigned(#[trigger] all[m], usize::MAX as nat)
                            == Some(before[j] as nat);
                    assert(number::unsigned(all[m], usize::MAX as nat) == Some(r@[j] as nat));
                } else {
                    assert(number::unsigned(all[k as int], usize::MAX as nat) == Some(
                        r@[j] as nat,
                    ));
                }
            }
        }
        k += 1;
    }
    proof {
        assert forall|c: int| policy_lists(*p, c) implies exists|j: int|
            0 <= j < r.len() && r@[j] == c by {
            let m = choose|m: int|
                0 <= m < all.len() && number::unsigned(#[trigger] all[m], usize::MAX as nat)
                    == Some(c as nat);
            let j = choose|j: int| 0 <= j < r.len() && r@[j] == c as nat;
            assert(r@[j] == c);
        }
        assert forall|c: int| (exists|j: int| 0 <= j < r.len() && r@[j] == c) implies policy_lists(
            *p,
            c,
        ) by {
            let j = choose|j: int| 0 <= j < r.len() && r@[j] == c;
            let m = choose|m: int|
                0 <= m < all.len() && number::unsigned(#[trigger] all[m], usize::MAX as nat)
                    == Some(r@[j] as nat);
            assert(number::unsigned(all[m], usize::MAX as nat) == Some(c as nat));
        }
    }
    r
}

/// The highest frequency of a policy that counts; zero for one that does not.
fn frequency(p: &Policy) -> (r: u64)
    ensures
        match policy_freq(*p) {
            Some(f) => r == f && f > 0,
            None => r == 0,
        },
{
    let cpus = policy_cpus(p);
    let f: u64 = match &p.max_freq {
        Some(t) => match number::parse_u64(text::trim(t.as_str())) {
            Some(f) => f,
            None => 0,
        },
        None => {
            assert(text::trimmed(Seq::<char>::empty()) == Seq::<char>::empty());
            0
        },
    };
    if cpus.len() > 0 {
        assert(policy_lists(*p, cpus@[0] as int));
    } else {
        assert forall|c: int| !policy_lists(*p, c) by {}
    }
    if text::starts_with(p.name.as_str(), "policy") && cpus.len() > 0 {
        f
    } else {
        0
    }
}

/// The three sets are the efficiency, performance and prime cores.
pub open spec fn are_tiers(ps: Seq<Policy>, e: Set<int>, p: Set<int>, hp: Set<int>) -> bool {
    &&& e == tier_cpus(ps, Tier::Efficiency)
    &&& p == tier_cpus(ps, Tier::Performance)
    &&& hp == tier_cpus(ps, Tier::Prime)
}

/// Sorts the cores of a machine into tiers by their highest frequency:
/// efficiency, performance and prime cores.
pub fn detect_core_types(policies: &Vec<Policy>) -> (r: (CpuSet, CpuSet, CpuSet))
    ensures
        are_tiers(policies@, r.0@, r.1@, r.2@),
{
    let ghost ps = policies@;
    let n: usize = policies.len();
    let mut lo: u64 = 0;
    let mut hi: u64 = 0;
    let mut i: usize = 0;
    while i < n
        invariant
            i <= n,
            n == policies.len(),
            ps == policies@,
            lo == 0 <==> hi == 0,
            lo <= hi,
            forall|j: int|
                0 <= j < i ==> (policy_freq(#[trigger] ps[j]) matches Some(g) ==> lo > 0 && lo <= g
                    <= hi),
            lo > 0 ==> exists|j: int| 0 <= j < i && policy_freq(#[trigger] ps[j]) == Some(lo as nat),
            hi > 0 ==> exists|j: int| 0 <= j < i && policy_freq(#[trigger] ps[j]) == Some(hi as nat),
        decreases n - i,
    {
        let f = frequency(&policies[i]);
        assert(policy_freq(ps[i as int]) is Some <==> f > 0);
        if f > 0 {
            if lo == 0 || f < lo {
                lo = f;
            }
            if f > hi {
                hi = f;
            }
        }
        i += 1;
    }
    let mut e = CpuSet::new();
    let mut p = CpuSet::new();
    let mut h = CpuSet::new();
    assert(e@ =~= tier_cpus_upto(ps, Tier::Efficiency, 0));
    assert(p@ =~= tier_cpus_upto(ps, Tier::Performance, 0));
    assert(h@ =~= tier_cpus_upto(ps, Tier::Prime, 0));
    let mut k: usize = 0;
    while k < n
        invariant
            k <= n,
            n == policies.len(),
            ps == policies@,
            forall|j: int|
                0 <= j < n ==> (policy_freq(#[trigger] ps[j]) matches Some(g) ==> lo > 0 && lo <= g
                    <= hi),
            lo > 0 ==> exists|j: int| 0 <= j < n && policy_freq(#[trigger] ps[j]) == Some(lo as nat),
            hi > 0 ==> exists|j: int| 0 <= j < n && policy_freq(#[trigger] ps[j]) == Some(hi as nat),
            lo <= hi,
            e@ == tier_cpus_upto(ps, Tier::Efficiency, k as int),
            p@ == tier_cpus_upto(ps, Tier::Performance, k as int),
            h@ == tier_cpus_upto(ps, Tier::Prime, k as int),
        decreases n - k,
    {
        let f = frequency(&policies[k]);
        let cpus = policy_cpus(&policies[k]);
        let mut own = CpuSet::new();
        let mut j: usize = 0;
        while j < cpus.len()
            invariant
                j <= cpus.len(),
                own@ == Set::new(
                    |c: int| cpu_numbers().contains(c) && exists|m: int| 0 <= m < j && cpus[m] == c,
                ),
            decreases cpus.len() - j,
        {
            let ghost before = own@;
            own.set(cpus[j]);
            proof {
                assert forall|c: int|
                    #![trigger own@.contains(c)]
                    own@.contains(c) <==> (cpu_numbers().contains(c) && exists|m: int|
                        0 <= m < j + 1 && cpus[m] == c) by {
                    if before.contains(c) {
                        let m = choose|m: int| 0 <= m < j && cpus[m] == c;
                        assert(0 <= m < j + 1 && cpus[m] == c);
                    }
                    if c == cpus[j as int] {
                        assert(cpus[j as int] == c);
                    }
                }
                assert(own@ =~= Set::new(
                    |c: int|
                        cpu_numbers().contains(c) && exists|m: int| 0 <= m < j + 1 && cpus[m] == c,
                ));
            }
            j += 1;
        }
        assert(own@ =~= Set::new(
            |c: int| cpu_numbers().contains(c) && policy_lists(ps[k as int], c),
        ));
        let ghost e0 = e@;
        let ghost p0 = p@;
        let ghost h0 = h@;
        if f > 0 {
            proof {
                lemma_extremes(ps, lo as nat, hi as nat, f as nat);
            }
            if f == lo {
                e.or(&own);
            } else if f == hi {
                h.or(&own);
            } else {
                p.or(&own);
            }
        }
        proof {
            lemma_tier_step(ps, Tier::Efficiency, k as int);
            lemma_tier_step(ps, Tier::Performance, k as int);
            lemma_tier_step(ps, Tier::Prime, k as int);
            assert(e@ =~= tier_cpus_upto(ps, Tier::Efficiency, k + 1));
            assert(p@ =~= tier_cpus_upto(ps, Tier::Performance, k + 1));
            assert(h@ =~= tier_cpus_upto(ps, Tier::Prime, k + 1));
        }
        k += 1;
    }
    assert(e@ =~= tier_cpus(ps, Tier::Efficiency));
    assert(p@ =~= tier_cpus(ps, Tier::Performance));
    assert(h@ =~= tier_cpus(ps, Tier::Prime));
    (e, p, h)
}

proof fn lemma_extremes(ps: Seq<Policy>, lo: nat, hi: nat, f: nat)
    requires
        forall|j: int|
            0 <= j < ps.len() ==> (policy_freq(#[trigger] ps[j]) matches Some(g) ==> lo <= g <= hi),
        exists|j: int| 0 <= j < ps.len() && policy_freq(#[trigger] ps[j]) == Some(lo),
        exists|j: int| 0 <= j < ps.len() && policy_freq(#[trigger] ps[j]) == Some(hi),
    ensures
        is_lowest(ps, f) <==> f == lo,
        is_highest(ps, f) <==> f == hi,
{
}

proof fn lemma_tier_step(ps: Seq<Policy>, t: Tier, k: int)
    requires
        0 <= k < ps.len(),
    ensures
        tier_cpus_upto(ps, t, k + 1) == if policy_in_tier(ps, k, t) {
            tier_cpus_upto(ps, t, k).union(
                Set::new(|c: int| cpu_numbers().contains(c) && policy_lists(ps[k], c)),
            )
        } else {
            tier_cpus_upto(ps, t, k)
        },
{
    let a = tier_cpus_upto(ps, t, k + 1);
    let b = if policy_in_tier(ps, k, t) {
        tier_cpus_upto(ps, t, k).union(
            Set::new(|c: int| cpu_numbers().contains(c) && policy_lists(ps[k], c)),
        )
    } else {
        tier_cpus_upto(ps, t, k)
    };
    assert forall|c: int| a.contains(c) <==> b.contains(c) by {
        if b.contains(c) && policy_in_tier(ps, k, t) && policy_lists(ps[k], c) {
            assert(policy_in_tier(ps, k, t));
        }
    }
    assert(a =~= b);
}

/// Where the daemon keeps its cpuset directories.
pub struct CpusetRoot {
    pub path: Option<String>,
}

/// A directory name that stands for one level under `/dev/cpuset`.
pub open spec fn usable_dir_name(name: Seq<char>) -> bool {
    name.len() > 0 && !name.contains('/')
}

/// The path of the daemon's own cpuset directory.
pub open spec fn root_path(root: CpusetRoot) -> Seq<char> {
    match root.path {
        Some(p) => p@,
        None => "/dev/cpuset/AppOpt"@,
    }
}

/// The path of a directory under the daemon's own one; the empty name stands
/// for the latter itself.
pub open spec fn dir_path(root: CpusetRoot, dir: Seq<char>) -> Seq<char> {
    if dir.len() == 0 {
        root_path(root)
    } else {
        root_path(root) + "/"@ + dir
    }
}

/// Moves the daemon's cpuset directory; an empty name, or one with a slash,
/// changes nothing.
pub fn set_base_cpuset(root: &mut CpusetRoot, name: &str)
    ensures
        root_path(*final(root)) == if usable_dir_name(name@) {
            "/dev/cpuset/"@ + name@
        } else {
            root_path(*old(root))
        },
        !usable_dir_name(name@) ==> *final(root) == *old(root),
{
    if name.is_empty() || text::has_char(name, '/') {
        return ;
    }
    let mut p = String::from_str("/dev/cpuset/");
    p.append(name);
    root.path = Some(p);
}

/// The path of the daemon's cpuset directory.
pub fn base_cpuset(root: &CpusetRoot) -> (r: String)
    ensures
        r@ == root_path(*root),
{
    match &root.path {
        Some(p) => p.clone(),
        None => String::from_str("/dev/cpuset/AppOpt"),
    }
}

/// The path of a cpuset directory of the daemon.
pub fn cpuset_dir_path(root: &CpusetRoot, dir: &str) -> (r: String)
    ensures
        r@ == dir_path(*root, dir@),
{
    let mut p = base_cpuset(root);
    if !dir.is_empty() {
        p.append("/");
        p.append(dir);
    }
    p
}

/// How an attempt to make a directory ended.
#[derive(Clone, Copy, PartialEq, Eq, Structural, Debug)]
pub enum Mkdir {
    Made,
    AlreadyThere,
    Failed,
}

/// What is left to do for a cpuset directory.
#[derive(Clone, Copy, PartialEq, Eq, Structural, Debug)]
pub enum DirPlan {
    /// The directory cannot be had.
    GiveUp,
    /// It is there with the wanted contents.
    Ready,
    /// Its owner, mode and contents have to be written.
    Fill,
}

/// The text that was read is the wanted one, but for white space around it.
pub open spec fn already_holds(current: Option<&str>, wanted: Seq<char>) -> bool {
    match current {
        Some(t) => text::trimmed(t@) == text::trimmed(wanted),
        None => false,
    }
}

/// Whether a file already has the wanted contents.
fn holds_already(current: Option<&str>, wanted: &str) -> (r: bool)
    ensures
        r == already_holds(current, wanted@),
{
    match current {
        Some(t) => text::same(text::trim(t), text::trim(wanted)),
        None => false,
    }
}

/// What is left to do for a directory, by how making it ended and whether it
/// holds the wanted CPUs and memory nodes.
pub open spec fn dir_plan(mkdir: Mkdir, same_cpus: bool, same_mems: bool) -> DirPlan {
    match mkdir {
        Mkdir::Failed => DirPlan::GiveUp,
        Mkdir::Made => DirPlan::Fill,
        Mkdir::AlreadyThere => if same_cpus && same_mems {
            DirPlan::Ready
        } else {
            DirPlan::Fill
        },
    }
}

/// Only a directory that was there and holds what it should is left alone, and
/// only one that could not be had is given up.
pub proof fn directories_are_filled_where_they_differ(mkdir: Mkdir, cpus: bool, mems: bool)
    ensures
        dir_plan(mkdir, cpus, mems) == DirPlan::Ready <==> mkdir == Mkdir::AlreadyThere && cpus
            && mems,
        dir_plan(mkdir, cpus, mems) == DirPlan::GiveUp <==> mkdir == Mkdir::Failed,
{
}

/// Decides, after the attempt to make a cpuset directory, what is left to do:
/// a directory that was there with the same CPUs and memory nodes is left alone.
pub fn create_cpuset_dir(
    mkdir: Mkdir,
    current_cpus: Option<&str>,
    current_mems: Option<&str>,
    cpus: &str,
    mems: &str,
) -> (r: DirPlan)
    ensures
        r == dir_plan(
            mkdir,
            already_holds(current_cpus, cpus@),
            already_holds(current_mems, mems@),
        ),
{
    match mkdir {
        Mkdir::Failed => DirPlan::GiveUp,
        Mkdir::Made => DirPlan::Fill,
        Mkdir::AlreadyThere => {
            if holds_already(current_cpus, cpus) && holds_already(current_mems, mems) {
                DirPlan::Ready
            } else {
                DirPlan::Fill
            }
        },
    }
}

/// The directory for a set of CPUs: its name, or the empty name where cpusets
/// are off or the directory could not be had.
pub fn ensure_cpuset_dir(cpus: &CpuSet, topo: &CpuTopology, created: bool) -> (r: String)
    ensures
        r@ == if topo.cpuset_enabled && created {
            range_text(cpus@)
        } else {
            Seq::<char>::empty()
        },
{
    if !topo.cpuset_enabled || !created {
        return String::new();
    }
    cpus.to_range_string()
}

/// The text that was read, trimmed; nothing stands for the empty text.
pub open spec fn trimmed_or_empty(t: Option<&str>) -> Seq<char> {
    match t {
        Some(s) => text::trimmed(s@),
        None => seq![],
    }
}

/// The topology of a machine, from what the kernel says of its CPUs. Where the
/// cpuset file system is there, its memory nodes are those of its root, or
/// node 0 where that says nothing. Cpusets stay off until
/// [`enable_cpuset`] turns them on.
pub fn init_cpu_topo(
    present: Option<&str>,
    policies: &Vec<Policy>,
    cpuset_found: bool,
    mems: Option<&str>,
) -> (r: CpuTopology)
    ensures
        r.present_str@ == trimmed_or_empty(present),
        r.present_cpus@ == listed(r.present_str@, cpu_numbers()),
        are_tiers(policies@, r.e_core@, r.p_core@, r.hp_core@),
        r.mems_str@ == if !cpuset_found {
            Seq::<char>::empty()
        } else if trimmed_or_empty(mems).len() == 0 {
            "0"@
        } else {
            trimmed_or_empty(mems)
        },
        !r.cpuset_enabled,
{
    let present_str: String = match present {
        Some(t) => text::trim(t).to_owned(),
        None => String::new(),
    };
    let present_cpus = parse_cpu_ranges(present_str.as_str(), None);
    let (e, p, h) = detect_core_types(policies);
    let mut mems_str = String::new();
    if cpuset_found {
        match mems {
            Some(t) => {
                mems_str = text::trim(t).to_owned();
            },
            None => {},
        }
        if mems_str.as_str().is_empty() {
            mems_str = String::from_str("0");
        }
    }
    CpuTopology {
        present_cpus,
        present_str,
        mems_str,
        cpuset_enabled: false,
        e_core: e,
        p_core: p,
        hp_core: h,
    }
}

/// Turns cpusets on where the file system is there and the daemon's own
/// directory could be had.
pub fn enable_cpuset(topo: &mut CpuTopology, cpuset_found: bool, created: bool)
    ensures
        *final(topo) == (CpuTopology { cpuset_enabled: cpuset_found && created, ..*old(topo) }),
{
    topo.cpuset_enabled = cpuset_found && created;
}

/// Whether the cpuset tree's time stamps are still to be aligned after the
/// first full pass; says so once.
pub fn sync_init_once(synced: &mut bool) -> (r: bool)
    ensures
        r == !*old(synced),
        *final(synced),
{
    let first: bool = !*synced;
    *synced = true;
    first
}

/// CPU `c` lies in the run `r`.
pub open spec fn in_run(r: (int, int), c: int) -> bool {
    r.0 <= c <= r.1
}

proof fn lemma_run_end_in(s: Set<int>, i: int)
    requires
        0 <= i < CPU_SETSIZE,
    ensures
        i <= run_end(s, i) < CPU_SETSIZE,
        forall|c: int| i < c <= run_end(s, i) ==> s.contains(c),
        run_end(s, i) + 1 < CPU_SETSIZE ==> !s.contains(run_end(s, i) + 1),
    decreases CPU_SETSIZE - i,
{
    if i + 1 < CPU_SETSIZE && s.contains(i + 1) {
        lemma_run_end_in(s, i + 1);
    }
}

/// The runs of a set are ascending, do not touch, and cover just its members.
pub proof fn runs_cover(s: Set<int>, i: int)
    requires
        0 <= i,
    ensures
        forall|k: int|
            0 <= k < runs_from(s, i).len() ==> i <= (#[trigger] runs_from(s, i)[k]).0 <= runs_from(
                s,
                i,
            )[k].1 < CPU_SETSIZE,
        forall|k: int|
            0 < k < runs_from(s, i).len() ==> runs_from(s, i)[k - 1].1 + 1 < (
            #[trigger] runs_from(s, i)[k]).0,
        forall|c: int|
            (i <= c < CPU_SETSIZE && s.contains(c)) <==> exists|k: int|
                0 <= k < runs_from(s, i).len() && #[trigger] in_run(runs_from(s, i)[k], c),
    decreases CPU_SETSIZE - i,
{
    let rs = runs_from(s, i);
    if i >= CPU_SETSIZE {
    } else if s.contains(i) {
        let j = run_end(s, i);
        lemma_run_end_in(s, i);
        let rest = runs_from(s, j + 1);
        runs_cover(s, j + 1);
        assert(rs == seq![(i, j)] + rest);
        assert(rs[0] == (i, j));
        assert forall|k: int| 0 < k < rs.len() implies rs[k] == rest[k - 1] by {}
        assert forall|k: int| 0 < k < rs.len() implies rs[k - 1].1 + 1 < (#[trigger] rs[k]).0 by {
            assert(rs[k] == rest[k - 1]);
            if k == 1 {
                assert(j + 1 <= rest[0].0);
                if rest[0].0 == j + 1 {
                    assert(in_run(rest[0], j + 1));
                    assert(s.contains(j + 1));
                }
            } else {
                assert(rs[k - 1] == rest[k - 2]);
            }
        }
        assert forall|c: int|
            (i <= c < CPU_SETSIZE && s.contains(c)) <==> exists|k: int|
                0 <= k < rs.len() && #[trigger] in_run(rs[k], c) by {
            if i <= c < CPU_SETSIZE && s.contains(c) {
                if c <= j {
                    assert(in_run(rs[0], c));
                } else {
                    let k = choose|k: int| 0 <= k < rest.len() && #[trigger] in_run(rest[k], c);
                    assert(rs[k + 1] == rest[k]);
                    assert(in_run(rs[k + 1], c));
                }
            }
            if exists|k: int| 0 <= k < rs.len() && #[trigger] in_run(rs[k], c) {
                let k = choose|k: int| 0 <= k < rs.len() && #[trigger] in_run(rs[k], c);
                if k > 0 {
                    assert(in_run(rest[k - 1], c));
                }
            }
        }
    } else {
        runs_cover(s, i + 1);
        assert forall|c: int|
            (i <= c < CPU_SETSIZE && s.contains(c)) <==> exists|k: int|
                0 <= k < rs.len() && #[trigger] in_run(rs[k], c) by {
            assert(i <= c < CPU_SETSIZE && s.contains(c) ==> i + 1 <= c);
        }
    }
}

proof fn lemma_run_text(r: (int, int))
    requires
        0 <= r.0 <= r.1 < CPU_SETSIZE,
    ensures
        !run_text(r).contains(','),
        text::trimmed(run_text(r)) == run_text(r),
        item_range(run_text(r)) == Some((r.0 as nat, r.1 as nat)),
{
    let t = run_text(r);
    let a = number::dec(r.0 as nat);
    let b = number::dec(r.1 as nat);
    number::dec_reads_back(r.0 as nat);
    number::dec_reads_back(r.1 as nat);
    number::unsigned_reads_dec(r.0 as nat, usize::MAX as nat);
    number::unsigned_reads_dec(r.1 as nat, usize::MAX as nat);
    assert forall|k: int| 0 <= k < a.len() implies number::is_digit(a[k]) by {}
    assert forall|k: int| 0 <= k < b.len() implies number::is_digit(b[k]) by {}
    if r.0 == r.1 {
        text::lemma_first_at(t, '-', t.len() as int);
        assert(t.take(t.len() as int) == t);
    } else {
        assert forall|k: int| 0 <= k < t.len() implies t[k] == '-' || number::is_digit(t[k]) by {
            if k < a.len() {
                assert(t[k] == a[k]);
            } else if k > a.len() {
                assert(t[k] == b[k - a.len() - 1]);
            }
        }
        assert forall|k: int| 0 <= k < a.len() implies t[k] != '-' by {
            assert(t[k] == a[k]);
        }
        assert(t[a.len() as int] == '-');
        text::lemma_first_at(t, '-', a.len() as int);
        assert(t.take(a.len() as int) == a);
        assert(t.skip(a.len() as int + 1) == b);
        assert(t[0] == a[0]);
        assert(t.last() == b.last());
    }
    text::lemma_trimmed_id(t);
}

/// Reading the ranges that a set is written as gives the set back.
pub proof fn ranges_read_back(s: Set<int>)
    requires
        s.subset_of(cpu_numbers()),
    ensures
        listed(range_text(s), cpu_numbers()) == s,
{
    let rs = runs_from(s, 0);
    let parts = rs.map_values(|r: (int, int)| run_text(r));
    runs_cover(s, 0);
    if rs.len() == 0 {
        let none = Seq::<char>::empty();
        assert(range_text(s) == none);
        assert(text::pieces(none, ',') == seq![none]);
        assert(text::trimmed(none) == none);
        assert(none.take(0) == none);
        assert(item_range(none) is None);
        assert forall|c: int| !listed(none, cpu_numbers()).contains(c) by {}
        assert forall|c: int| !s.contains(c) by {
            if s.contains(c) {
                assert(cpu_numbers().contains(c));
            }
        }
    } else {
        assert forall|i: int| 0 <= i < parts.len() implies !(#[trigger] parts[i]).contains(',') by {
            assert(0 <= rs[i].0);
            lemma_run_text(rs[i]);
        }
        text::split_undoes_join(parts, ',');
        assert(text::pieces(range_text(s), ',') == parts);
        assert forall|c: int| listed(range_text(s), cpu_numbers()).contains(c) <==> s.contains(c) by {
            if s.contains(c) {
                assert(cpu_numbers().contains(c));
                let k = choose|k: int| 0 <= k < rs.len() && #[trigger] in_run(rs[k], c);
                lemma_run_text(rs[k]);
                assert(item_names(text::trimmed(parts[k]), c));
            }
            if listed(range_text(s), cpu_numbers()).contains(c) {
                let k = choose|k: int|
                    0 <= k < parts.len() && #[trigger] item_names(text::trimmed(parts[k]), c);
                assert(0 <= rs[k].0);
                lemma_run_text(rs[k]);
                assert(in_run(rs[k], c));
            }
        }
    }
    assert(listed(range_text(s), cpu_numbers()) =~= s);
}

/// As a CPU specification, too, the ranges that a set is written as stand for
/// the set, as far as the machine has its CPUs.
pub proof fn ranges_are_specs(s: Set<int>, topo: CpuTopology)
    requires
        s.subset_of(cpu_numbers()),
    ensures
        spec_cpus(range_text(s), topo) == s.intersect(topo.present_cpus@),
{
    let spec = range_text(s);
    let present = topo.present_cpus@;
    ranges_read_back(s);
    runs_cover(s, 0);
    let rs = runs_from(s, 0);
    let parts = rs.map_values(|r: (int, int)| run_text(r));
    let ps = text::pieces(spec, ',');
    reveal_strlit("e-core");
    reveal_strlit("p-core");
    reveal_strlit("hp-core");
    reveal_strlit("all-core");
    if rs.len() == 0 {
        let none = Seq::<char>::empty();
        assert(spec == none);
        assert(ps == seq![none]);
        assert(text::trimmed(none) == none);
        text::lemma_pieces_single(none, ',');
        assert(none.take(0) == none);
        assert(item_range(none) is None);
        assert(spec_cpus(spec, topo) =~= s.intersect(present));
    } else {
        assert forall|i: int| 0 <= i < parts.len() implies !(#[trigger] parts[i]).contains(',') by {
            assert(0 <= rs[i].0);
            lemma_run_text(rs[i]);
        }
        text::split_undoes_join(parts, ',');
        assert(ps == parts);
        assert forall|k: int, c: int| 0 <= k < ps.len() implies (#[trigger] item_cpus(
            text::trimmed(ps[k]),
            topo,
        ).contains(c) <==> in_run(rs[k], c) && cpu_numbers().contains(c) && present.contains(c)) by {
            let t = parts[k];
            assert(0 <= rs[k].0);
            lemma_run_text(rs[k]);
            number::dec_reads_back(rs[k].0 as nat);
            assert(t[0] == number::dec(rs[k].0 as nat)[0]);
            assert(number::is_digit(number::dec(rs[k].0 as nat)[0]));
            assert(t != "e-core"@ && t != "p-core"@ && t != "hp-core"@ && t != "all-core"@);
            text::lemma_pieces_single(t, ',');
            assert(text::pieces(t, ',')[0] == t);
            if listed(t, present).contains(c) {
                let j = choose|j: int|
                    0 <= j < text::pieces(t, ',').len() && #[trigger] item_names(
                        text::trimmed(text::pieces(t, ',')[j]),
                        c,
                    );
                assert(j == 0);
            }
            if in_run(rs[k], c) {
                assert(item_names(text::trimmed(text::pieces(t, ',')[0]), c));
            }
        }
        assert forall|c: int| spec_cpus(spec, topo).contains(c) <==> s.intersect(
            present,
        ).contains(c) by {
            if spec_cpus(spec, topo).contains(c) {
                let k = choose|k: int|
                    0 <= k < ps.len() && #[trigger] item_cpus(text::trimmed(ps[k]), topo).contains(
                        c,
                    );
                assert(in_run(rs[k], c));
            }
            if s.contains(c) && present.contains(c) {
                let k = choose|k: int| 0 <= k < rs.len() && #[trigger] in_run(rs[k], c);
                assert(item_cpus(text::trimmed(ps[k]), topo).contains(c));
            }
        }
        assert(spec_cpus(spec, topo) =~= s.intersect(present));
    }
}

/// A name of a tier of cores stands for that tier.
pub proof fn names_are_specs(name: Seq<char>, topo: CpuTopology)
    requires
        name == "e-core"@ || name == "p-core"@ || name == "hp-core"@ || name == "all-core"@,
    ensures
        spec_cpus(name, topo) == item_cpus(name, topo),
{
    reveal_strlit("e-core");
    reveal_strlit("p-core");
    reveal_strlit("hp-core");
    reveal_strlit("all-core");
    assert(!name.contains(',')) by {
        if name.contains(',') {
            let j = name.index_of(',');
            assert(name[j] == ',');
        }
    }
    text::lemma_pieces_single(name, ',');
    text::lemma_trimmed_id(name);
    let ps = text::pieces(name, ',');
    assert(ps[0] == name);
    assert forall|c: int| spec_cpus(name, topo).contains(c) <==> item_cpus(name, topo).contains(
        c,
    ) by {
        if item_cpus(name, topo).contains(c) {
            assert(item_cpus(text::trimmed(ps[0]), topo).contains(c));
        }
    }
    assert(spec_cpus(name, topo) =~= item_cpus(name, topo));
}

/// Two sets are written alike only if they are the same.
pub proof fn range_text_tells_sets_apart(a: Set<int>, b: Set<int>)
    requires
        a.subset_of(cpu_numbers()),
        b.subset_of(cpu_numbers()),
        range_text(a) == range_text(b),
    ensures
        a == b,
{
    ranges_read_back(a);
    ranges_read_back(b);
}

/// A specification made of two, with a comma between them, stands for the
/// CPUs of both.
pub proof fn spec_is_union_of_items(a: Seq<char>, b: Seq<char>, topo: CpuTopology)
    ensures
        spec_cpus(a + seq![','] + b, topo) == spec_cpus(a, topo).union(spec_cpus(b, topo)),
{
    let pa = text::pieces(a, ',');
    let pb = text::pieces(b, ',');
    let s = a + seq![','] + b;
    text::lemma_pieces_concat(a, ',', b);
    let ps = text::pieces(s, ',');
    assert(ps == pa + pb);
    assert forall|c: int|
        spec_cpus(s, topo).contains(c) <==> spec_cpus(a, topo).union(
            spec_cpus(b, topo),
        ).contains(c) by {
        if spec_cpus(a, topo).contains(c) {
            let k = choose|k: int|
                0 <= k < pa.len() && #[trigger] item_cpus(text::trimmed(pa[k]), topo).contains(c);
            assert(ps[k] == pa[k]);
            assert(item_cpus(text::trimmed(ps[k]), topo).contains(c));
        }
        if spec_cpus(b, topo).contains(c) {
            let k = choose|k: int|
                0 <= k < pb.len() && #[trigger] item_cpus(text::trimmed(pb[k]), topo).contains(c);
            assert(ps[pa.len() + k] == pb[k]);
            assert(item_cpus(text::trimmed(ps[pa.len() + k]), topo).contains(c));
        }
        if spec_cpus(s, topo).contains(c) {
            let k = choose|k: int|
                0 <= k < ps.len() && #[trigger] item_cpus(text::trimmed(ps[k]), topo).contains(c);
            if k < pa.len() {
                assert(item_cpus(text::trimmed(pa[k]), topo).contains(c));
            } else {
                assert(item_cpus(text::trimmed(pb[k - pa.len()]), topo).contains(c));
            }
        }
    }
    assert(spec_cpus(s, topo) =~= spec_cpus(a, topo).union(spec_cpus(b, topo)));
}

/// No specification names a CPU that the machine does not have, as long as
/// its tiers do not.
pub proof fn spec_stays_present(spec: Seq<char>, topo: CpuTopology)
    requires
        topo.e_core@.subset_of(topo.present_cpus@),
        topo.p_core@.subset_of(topo.present_cpus@),
        topo.hp_core@.subset_of(topo.present_cpus@),
    ensures
        spec_cpus(spec, topo).subset_of(topo.present_cpus@),
{
}

/// The tiers share no frequency, and with a single frequency there is only the
/// efficiency tier.
pub proof fn tiers_follow_frequency(ps: Seq<Policy>, f: nat, g: nat)
    requires
        is_lowest(ps, f),
        is_highest(ps, g),
    ensures
        tier_of(ps, f) == Tier::Efficiency,
        f != g ==> tier_of(ps, g) == Tier::Prime,
        f == g ==> tier_cpus(ps, Tier::Performance) == Set::<int>::empty() && tier_cpus(
            ps,
            Tier::Prime,
        ) == Set::<int>::empty(),
        forall|m: nat| f < m < g ==> tier_of(ps, m) == Tier::Performance,
{
    if f == g {
        assert forall|i: int| 0 <= i < ps.len() implies !policy_in_tier(
            ps,
            i,
            Tier::Performance,
        ) && !policy_in_tier(ps, i, Tier::Prime) by {
            assert(policy_freq(ps[i]) matches Some(h) ==> f <= h && h <= g);
        }
        assert(tier_cpus(ps, Tier::Performance) =~= Set::<int>::empty());
        assert(tier_cpus(ps, Tier::Prime) =~= Set::<int>::empty());
    }
    if f != g {
        let i = choose|i: int| 0 <= i < ps.len() && policy_freq(#[trigger] ps[i]) == Some(f);
        assert(f <= g);
        assert(!is_lowest(ps, g));
    }
}

/// The word with the bits of the CPUs below `n`.
pub open spec fn low_bits(s: Set<int>, n: nat) -> u64
    decreases n,
{
    if n == 0 {
        0
    } else {
        low_bits(s, (n - 1) as nat) | if s.contains(n - 1) {
            1u64 << ((n - 1) as u64)
        } else {
            0u64
        }
    }
}

/// The first word of a set: one bit for each of the first 64 CPUs.
pub open spec fn low_word(s: Set<int>) -> u64 {
    low_bits(s, 64)
}

spec fn mask(n: u64) -> u64 {
    if n >= 64 {
        u64::MAX
    } else {
        ((1u64 << n) - 1) as u64
    }
}

proof fn lemma_mask_step(w: u64, n: u64)
    requires
        n < 64,
    ensures
        (w & mask(n)) | (if w & (1u64 << n) != 0 {
            1u64 << n
        } else {
            0u64
        }) == w & mask((n + 1) as u64),
{
    if n < 63 {
        assert((w & (((1u64 << n) - 1) as u64)) | (if w & (1u64 << n) != 0 {
            1u64 << n
        } else {
            0u64
        }) == w & (((1u64 << ((n + 1) as u64)) - 1) as u64)) by (bit_vector)
            requires
                n < 63,
        ;
    } else {
        assert((w & (((1u64 << 63u64) - 1) as u64)) | (if w & (1u64 << 63u64) != 0 {
            1u64 << 63u64
        } else {
            0u64
        }) == w & u64::MAX) by (bit_vector);
    }
}

proof fn lemma_low_bits(c: CpuSet, n: nat)
    requires
        n <= 64,
    ensures
        low_bits(c@, n) == c.bits@[0] & mask(n as u64),
    decreases n,
{
    let w = c.bits@[0];
    if n == 0 {
        assert(w & (((1u64 << 0u64) - 1) as u64) == 0) by (bit_vector);
    } else {
        lemma_low_bits(c, (n - 1) as nat);
        lemma_mask_step(w, (n - 1) as u64);
        assert(c@.contains(n - 1) <==> c.has(n - 1));
        assert((n - 1) / 64 == 0 && (n - 1) % 64 == n - 1);
    }
}

/// The first word of a set has the bit of each of its first 64 CPUs, and no
/// other.
pub proof fn words_hold_their_cpus(s: CpuSet, c: int)
    requires
        0 <= c < 64,
    ensures
        bit(low_word(s@), c) <==> s@.contains(c),
{
    lemma_low_bits(s, 64);
    let w = s.bits@[0];
    assert(w & u64::MAX == w) by (bit_vector);
    assert(s@.contains(c) <==> s.has(c));
    assert(c / 64 == 0 && c % 64 == c);
}

impl CpuSet {
    /// The first word of the set.
    pub fn first_word(&self) -> (r: u64)
        ensures
            r == low_word(self@),
    {
        proof {
            lemma_low_bits(*self, 64);
            let w = self.bits@[0];
            assert(w & u64::MAX == w) by (bit_vector);
        }
        self.bits[0]
    }
}

/// The cores of a policy belong to the tier of its frequency: to the efficiency
/// tier where no policy has a lower one, else to the prime tier where none has a
/// higher one, and else to the performance tier, and to no other.
pub proof fn cores_belong_to_the_tier_of_their_frequency(
    ps: Seq<Policy>,
    i: int,
    c: int,
    f: nat,
    e: Set<int>,
    p: Set<int>,
    hp: Set<int>,
)
    requires
        are_tiers(ps, e, p, hp),
        0 <= i < ps.len(),
        policy_freq(ps[i]) == Some(f),
        policy_lists(ps[i], c),
        0 <= c < 1024,
    ensures
        ({
            let lowest = forall|j: int|
                0 <= j < ps.len() ==> (policy_freq(#[trigger] ps[j]) matches Some(g) ==> f <= g);
            let highest = forall|j: int|
                0 <= j < ps.len() ==> (policy_freq(#[trigger] ps[j]) matches Some(g) ==> g <= f);
            &&& lowest ==> e.contains(c)
            &&& !lowest && highest ==> hp.contains(c)
            &&& !lowest && !highest ==> p.contains(c)
        }),
{
    assert(policy_freq(ps[i]) == Some(f));
    let t = tier_of(ps, f);
    assert(policy_in_tier(ps, i, t));
    assert(tier_cpus(ps, t).contains(c));
}

/// A core is in a tier only if a policy lists it.
pub proof fn tiers_hold_listed_cores(ps: Seq<Policy>, t: Tier, c: int)
    requires
        tier_cpus(ps, t).contains(c),
    ensures
        exists|i: int|
            0 <= i < ps.len() && policy_lists(#[trigger] ps[i], c) && policy_freq(ps[i]) is Some,
{
    let i = choose|i: int|
        0 <= i < ps.len() && #[trigger] policy_in_tier(ps, i, t) && policy_lists(ps[i], c);
    assert(policy_lists(ps[i], c));
}

/// A policy has the frequency that its file says, and the cores that its list
/// names.
pub proof fn policies_are_read(p: Policy, f: nat, c: nat, max: String, cpus: String)
    requires
        0 < f <= u64::MAX,
        c <= 0xffff_ffff,
        text::starts(p.name@, "policy"@),
        p.max_freq == Some(max),
        p.related_cpus == Some(cpus),
        max@ == number::dec(f) + seq!['\n'],
        cpus@ == number::dec(c),
    ensures
        policy_lists(p, c as int),
        policy_freq(p) == Some(f),
{
    let d = number::dec(f);
    let e = number::dec(c);
    number::dec_reads_back(f);
    number::dec_reads_back(c);
    number::unsigned_reads_dec(f, u64::MAX as nat);
    number::unsigned_reads_dec(c, usize::MAX as nat);
    let n = d.len() as int;
    let s = max@;
    assert(number::is_digit(d[0]) && number::is_digit(d[n - 1]));
    assert(s[0] == d[0] && s[n - 1] == d[n - 1] && s[n] == '\n');
    text::lemma_trimmed_is(s, 0, n);
    assert(s.subrange(0, n) =~= d);
    assert forall|j: int| 0 <= j < e.len() implies !text::is_space(#[trigger] e[j]) by {
        assert(number::is_digit(e[j]));
    }
    assert(!text::is_space(e[0]));
    text::lemma_word_len(e, e.len() as int);
    assert(e.take(e.len() as int) =~= e);
    assert(e.skip(e.len() as int) =~= Seq::<char>::empty());
    reveal_with_fuel(text::words, 2);
    let ws = text::words(e);
    assert(ws[0] == e);
    assert(policy_lists(p, c as int));
}

} // verus!
