//! Suggestions for names of packages and threads.
use vstd::prelude::*;

use crate::http;
use crate::names::NameMap;
use crate::order;
use crate::text;

verus! {

broadcast use vstd::string::group_string_axioms;

/// How many names are suggested at most.
pub const MAX_SUGGESTIONS: usize = 20;

/// How well a name fits: 0 where it starts with what was typed, 1 where it
/// holds it, 2 where it does not. What was typed is in small letters.
pub open spec fn fit(name: Seq<char>, lq: Seq<char>) -> int {
    if text::starts(http::lowered(name), lq) {
        0
    } else if text::holds(http::lowered(name), lq) {
        1
    } else {
        2
    }
}

/// The one name comes before the other: it fits better, or just as well and is
/// more frequent, or just as frequent and first by letters.
pub open spec fn ahead(a: (Seq<char>, u64), b: (Seq<char>, u64), lq: Seq<char>) -> bool {
    let fa = fit(a.0, lq);
    let fb = fit(b.0, lq);
    fa < fb || (fa == fb && (a.1 > b.1 || (a.1 == b.1 && order::before(a.0, b.0))))
}

/// The list holds the names that fit, the best first.
pub open spec fn is_ranking(
    list: Seq<(Seq<char>, u64)>,
    counts: Map<Seq<char>, u64>,
    lq: Seq<char>,
) -> bool {
    &&& forall|i: int, j: int|
        0 <= i < j < list.len() ==> ahead(#[trigger] list[i], #[trigger] list[j], lq)
    &&& forall|n: Seq<char>, c: u64| #[trigger]
        list.contains((n, c)) <==> counts.contains_key(n) && counts[n] == c && fit(n, lq) < 2
}

/// The contents of a list of names with their counts.
pub open spec fn ranked_views(v: Seq<(String, u64)>) -> Seq<(Seq<char>, u64)> {
    v.map_values(|p: (String, u64)| (p.0@, p.1))
}

/// As many as are suggested at most.
pub open spec fn at_most_twenty(n: nat) -> nat {
    if n <= MAX_SUGGESTIONS {
        n
    } else {
        MAX_SUGGESTIONS as nat
    }
}

fn fit_of(name: &str, lq: &str) -> (r: u8)
    ensures
        r == fit(name@, lq@),
{
    let ln = http::to_lower(name);
    if text::starts_with(ln.as_str(), lq) {
        0
    } else if text::contains(ln.as_str(), lq) {
        1
    } else {
        2
    }
}

fn comes_ahead(an: &str, ac: u64, bn: &str, bc: u64, lq: &str) -> (r: bool)
    ensures
        r == ahead((an@, ac), (bn@, bc), lq@),
{
    let fa: u8 = fit_of(an, lq);
    let fb: u8 = fit_of(bn, lq);
    fa < fb || (fa == fb && (ac > bc || (ac == bc && order::comes_before(an, bn))))
}

proof fn lemma_ahead_transitive(
    a: (Seq<char>, u64),
    b: (Seq<char>, u64),
    c: (Seq<char>, u64),
    lq: Seq<char>,
)
    requires
        ahead(a, b, lq),
        ahead(b, c, lq),
    ensures
        ahead(a, c, lq),
{
    if order::before(a.0, b.0) && order::before(b.0, c.0) {
        order::lemma_before_transitive(a.0, b.0, c.0);
    }
}

proof fn lemma_ahead_irreflexive(a: (Seq<char>, u64), lq: Seq<char>)
    ensures
        !ahead(a, a, lq),
{
    order::lemma_before_irreflexive(a.0);
}

proof fn lemma_ahead_total(a: (Seq<char>, u64), b: (Seq<char>, u64), lq: Seq<char>)
    ensures
        a == b || ahead(a, b, lq) || ahead(b, a, lq),
{
    order::lemma_before_total(a.0, b.0);
}

/// Puts a name where it belongs.
fn place(list: &mut Vec<(String, u64)>, name: &str, count: u64, lq: &str)
    requires
        forall|i: int, j: int|
            0 <= i < j < old(list)@.len() ==> ahead(
                #[trigger] ranked_views(old(list)@)[i],
                #[trigger] ranked_views(old(list)@)[j],
                lq@,
            ),
        !ranked_views(old(list)@).contains((name@, count)),
    ensures
        forall|i: int, j: int|
            0 <= i < j < final(list)@.len() ==> ahead(
                #[trigger] ranked_views(final(list)@)[i],
                #[trigger] ranked_views(final(list)@)[j],
                lq@,
            ),
        forall|x: (Seq<char>, u64)| #[trigger]
            ranked_views(final(list)@).contains(x) <==> ranked_views(old(list)@).contains(x) || x
                == (name@, count),
{
    let ghost vs = ranked_views(list@);
    let ghost x = (name@, count);
    let mut k: usize = 0;
    while k < list.len() && comes_ahead(list[k].0.as_str(), list[k].1, name, count, lq)
        invariant
            k <= list.len(),
            vs == ranked_views(list@),
            x == (name@, count),
            forall|j: int| 0 <= j < k ==> ahead(#[trigger] vs[j], x, lq@),
        decreases list.len() - k,
    {
        assert(vs[k as int] == (list@[k as int].0@, list@[k as int].1));
        k += 1;
    }
    proof {
        if k < list.len() {
            assert(vs[k as int] == (list@[k as int].0@, list@[k as int].1));
            assert(vs.contains(vs[k as int]));
            lemma_ahead_total(vs[k as int], x, lq@);
        }
    }
    list.insert(k, (name.to_owned(), count));
    proof {
        let now = ranked_views(list@);
        assert(now =~= vs.insert(k as int, x));
        assert forall|i: int, j: int| 0 <= i < j < now.len() implies ahead(
            #[trigger] now[i],
            #[trigger] now[j],
            lq@,
        ) by {
            if j == k {
                assert(now[i] == vs[i]);
            } else if i == k {
                assert(now[j] == vs[j - 1]);
                if j - 1 > k {
                    lemma_ahead_transitive(x, vs[k as int], vs[j - 1], lq@);
                }
            } else {
                let a = if i < k {
                    i
                } else {
                    i - 1
                };
                let b = if j < k {
                    j
                } else {
                    j - 1
                };
                assert(now[i] == vs[a]);
                assert(now[j] == vs[b]);
            }
        }
        assert forall|y: (Seq<char>, u64)| #[trigger] now.contains(y) <==> vs.contains(y) || y == x by {
            if vs.contains(y) {
                let i = vs.index_of(y);
                if i < k {
                    assert(now[i] == y);
                } else {
                    assert(now[i + 1] == y);
                }
            }
            if now.contains(y) {
                let i = now.index_of(y);
                if i < k {
                    assert(vs[i] == y);
                } else if i > k {
                    assert(vs[i - 1] == y);
                }
            }
            assert(now[k as int] == x);
        }
    }
}

/// The names that fit best, with their counts.
pub fn rank_top(counts: &NameMap<u64>, lq: &str) -> (r: Vec<(String, u64)>)
    requires
        counts.wf(),
    ensures
        exists|list: Seq<(Seq<char>, u64)>| #[trigger]
            is_ranking(list, counts@, lq@) && ranked_views(r@) == list.take(
                at_most_twenty(list.len()) as int,
            ),
{
    let mut list: Vec<(String, u64)> = Vec::new();
    let mut i: usize = 0;
    while i < counts.entries.len()
        invariant
            i <= counts.entries.len(),
            counts.wf(),
            forall|i: int, j: int|
                0 <= i < j < list@.len() ==> ahead(
                    #[trigger] ranked_views(list@)[i],
                    #[trigger] ranked_views(list@)[j],
                    lq@,
                ),
            forall|n: Seq<char>, c: u64| #[trigger]
                ranked_views(list@).contains((n, c)) <==> counts.keys().take(i as int).contains(n)
                    && counts@[n] == c && fit(n, lq@) < 2,
        decreases counts.entries.len() - i,
    {
        let name = counts.entries[i].0.as_str();
        let c: u64 = counts.entries[i].1;
        let ghost before = ranked_views(list@);
        let ghost a = counts.keys().take(i as int);
        let ghost b = counts.keys().take(i + 1);
        proof {
            counts.lemma_entry(i as int);
            if a.contains(name@) {
                let k = a.index_of(name@);
                assert(counts.keys()[k] == name@);
            }
            assert(!a.contains(name@));
            assert(!before.contains((name@, c)));
        }
        if fit_of(name, lq) < 2 {
            place(&mut list, name, c, lq);
        }
        proof {
            assert forall|n: Seq<char>, d: u64| #[trigger]
                ranked_views(list@).contains((n, d)) <==> b.contains(n) && counts@[n] == d && fit(
                    n,
                    lq@,
                ) < 2 by {
                assert(before.contains((n, d)) <==> a.contains(n) && counts@[n] == d && fit(n, lq@)
                    < 2);
                if a.contains(n) {
                    let k = a.index_of(n);
                    assert(b[k] == n);
                }
                if b.contains(n) {
                    let k = b.index_of(n);
                    assert(k == i || a[k] == n);
                }
                assert(b[i as int] == name@);
            }
        }
        i += 1;
    }
    proof {
        assert(counts.keys().take(i as int) =~= counts.keys());
        assert(is_ranking(ranked_views(list@), counts@, lq@));
    }
    let ghost full = ranked_views(list@);
    while list.len() > MAX_SUGGESTIONS
        invariant
            list.len() <= full.len(),
            full.len() >= MAX_SUGGESTIONS ==> list.len() >= MAX_SUGGESTIONS,
            full.len() < MAX_SUGGESTIONS ==> list.len() == full.len(),
            ranked_views(list@) == full.take(list@.len() as int),
        decreases list.len(),
    {
        let _ = list.pop();
        proof {
            assert(ranked_views(list@) =~= full.take(list@.len() as int));
        }
    }
    list
}

/// There is one ranking only.
pub proof fn ranking_is_unique(
    a: Seq<(Seq<char>, u64)>,
    b: Seq<(Seq<char>, u64)>,
    counts: Map<Seq<char>, u64>,
    lq: Seq<char>,
)
    requires
        is_ranking(a, counts, lq),
        is_ranking(b, counts, lq),
    ensures
        a == b,
{
    assert forall|x: (Seq<char>, u64)| a.contains(x) <==> b.contains(x) by {
        assert(a.contains((x.0, x.1)) <==> b.contains((x.0, x.1)));
    }
    lemma_same_ranking(a, b, lq);
}

proof fn lemma_same_ranking(a: Seq<(Seq<char>, u64)>, b: Seq<(Seq<char>, u64)>, lq: Seq<char>)
    requires
        forall|i: int, j: int|
            0 <= i < j < a.len() ==> ahead(#[trigger] a[i], #[trigger] a[j], lq),
        forall|i: int, j: int|
            0 <= i < j < b.len() ==> ahead(#[trigger] b[i], #[trigger] b[j], lq),
        forall|x: (Seq<char>, u64)| a.contains(x) <==> b.contains(x),
    ensures
        a == b,
    decreases a.len(),
{
    if a.len() == 0 {
        if b.len() > 0 {
            assert(b.contains(b[0]));
            assert(a.contains(b[0]));
        }
        assert(a =~= b);
    } else {
        assert(a.contains(a[0]));
        assert(b.contains(a[0]));
        let j = b.index_of(a[0]);
        assert(b.contains(b[0]));
        assert(a.contains(b[0]));
        let i = a.index_of(b[0]);
        if j != 0 {
            assert(ahead(b[0], b[j], lq));
            if i != 0 {
                assert(ahead(a[0], a[i], lq));
                lemma_ahead_transitive(a[0], b[0], a[0], lq);
            }
            lemma_ahead_irreflexive(a[0], lq);
        }
        assert(a[0] == b[0]);
        let ta = a.skip(1);
        let tb = b.skip(1);
        assert forall|x: (Seq<char>, u64)| ta.contains(x) <==> tb.contains(x) by {
            if ta.contains(x) {
                let k = ta.index_of(x);
                assert(a[k + 1] == x);
                assert(a.contains(x));
                let m = b.index_of(x);
                if m == 0 {
                    assert(ahead(a[0], a[k + 1], lq));
                    lemma_ahead_irreflexive(a[0], lq);
                }
                assert(tb[m - 1] == x);
            }
            if tb.contains(x) {
                let k = tb.index_of(x);
                assert(b[k + 1] == x);
                assert(b.contains(x));
                let m = a.index_of(x);
                if m == 0 {
                    assert(ahead(b[0], b[k + 1], lq));
                    lemma_ahead_irreflexive(b[0], lq);
                }
                assert(ta[m - 1] == x);
            }
        }
        assert forall|i: int, j: int| 0 <= i < j < ta.len() implies ahead(
            #[trigger] ta[i],
            #[trigger] ta[j],
            lq,
        ) by {
            assert(ahead(a[i + 1], a[j + 1], lq));
        }
        assert forall|i: int, j: int| 0 <= i < j < tb.len() implies ahead(
            #[trigger] tb[i],
            #[trigger] tb[j],
            lq,
        ) by {
            assert(ahead(b[i + 1], b[j + 1], lq));
        }
        lemma_same_ranking(ta, tb, lq);
        assert(a =~= seq![a[0]] + ta);
        assert(b =~= seq![b[0]] + tb);
    }
}

/// How often a name occurs among the first `n`.
pub open spec fn times(names: Seq<Seq<char>>, n: nat, name: Seq<char>) -> nat
    decreases n,
{
    if n == 0 {
        0
    } else {
        times(names, (n - 1) as nat, name) + (if names[n - 1] == name {
            1nat
        } else {
            0nat
        })
    }
}

proof fn lemma_times(names: Seq<Seq<char>>, n: nat, name: Seq<char>)
    ensures
        times(names, n, name) <= n,
    decreases n,
{
    if n > 0 {
        lemma_times(names, (n - 1) as nat, name);
    }
}

/// The name occurs among the first `n`.
pub open spec fn occurs(names: Seq<Seq<char>>, n: nat, name: Seq<char>) -> bool {
    exists|i: int| 0 <= i < n && #[trigger] names[i] == name
}

/// What is suggested holds what was typed, in whatever letters; names that start
/// with it come before those that only hold it, and among these the more
/// frequent before the less frequent. Every name that holds it is in the list.
pub proof fn better_fits_come_first(
    list: Seq<(Seq<char>, u64)>,
    counts: Map<Seq<char>, u64>,
    lq: Seq<char>,
    i: int,
    j: int,
)
    requires
        is_ranking(list, counts, lq),
        0 <= i < j < list.len(),
    ensures
        text::holds(http::lowered(list[i].0), lq),
        counts.contains_key(list[i].0) && counts[list[i].0] == list[i].1,
        text::starts(http::lowered(list[j].0), lq) ==> text::starts(http::lowered(list[i].0), lq),
        text::starts(http::lowered(list[j].0), lq) == text::starts(http::lowered(list[i].0), lq)
            ==> list[i].1 >= list[j].1,
        list[i].0 != list[j].0,
        forall|n: Seq<char>|
            counts.contains_key(n) && text::holds(http::lowered(n), lq) ==> list.contains(
                (n, #[trigger] counts[n]),
            ),
        at_most_twenty(list.len()) <= 20,
        list.len() <= 20 ==> at_most_twenty(list.len()) == list.len(),
        list.len() > 20 ==> at_most_twenty(list.len()) == 20,
{
    assert(ahead(list[i], list[j], lq));
    assert(list.contains((list[i].0, list[i].1))) by {
        assert(list[i] == (list[i].0, list[i].1));
    }
    assert(list.contains((list[j].0, list[j].1))) by {
        assert(list[j] == (list[j].0, list[j].1));
    }
    let a = http::lowered(list[i].0);
    if text::starts(a, lq) {
        assert(a.skip(0) =~= a);
        assert(text::starts(a.skip(0), lq));
    }
    if list[i].0 == list[j].0 {
        order::lemma_before_irreflexive(list[i].0);
    }
    assert forall|n: Seq<char>|
        counts.contains_key(n) && text::holds(http::lowered(n), lq) implies list.contains(
        (n, #[trigger] counts[n]),
    ) by {
        assert(fit(n, lq) < 2);
    }
}

/// A name counts as often as it was met, and a known name that was not met
/// counts as none.
pub proof fn names_count_as_often_as_met(
    counts: Map<Seq<char>, u64>,
    known: Seq<Seq<char>>,
    met: Seq<Seq<char>>,
    name: Seq<char>,
)
    requires
        is_count(counts, known, met),
    ensures
        counts.contains_key(name) <==> known.contains(name) || met.contains(name),
        counts.contains_key(name) ==> (counts[name] == 0 <==> !met.contains(name)),
        counts.contains_key(name) ==> counts[name] == met.filter(|n: Seq<char>| n == name).len(),
{
    let f = |n: Seq<char>| n == name;
    lemma_times_filter(met, met.len(), name);
    assert(met.take(met.len() as int) =~= met);
    if known.contains(name) {
        assert(known[known.index_of(name)] == name);
    }
    if met.contains(name) {
        assert(met[met.index_of(name)] == name);
    }
    if counts.contains_key(name) {
        if met.contains(name) {
            lemma_met(met, met.len(), name, met.index_of(name));
        } else {
            lemma_not_met(met, met.len(), name);
        }
    }
}

proof fn lemma_times_filter(met: Seq<Seq<char>>, n: nat, name: Seq<char>)
    requires
        n <= met.len(),
    ensures
        times(met, n, name) == met.take(n as int).filter(|m: Seq<char>| m == name).len(),
    decreases n,
{
    reveal(Seq::filter);
    if n > 0 {
        lemma_times_filter(met, (n - 1) as nat, name);
        assert(met.take(n as int).drop_last() =~= met.take(n - 1));
    }
}

proof fn lemma_met(met: Seq<Seq<char>>, n: nat, name: Seq<char>, k: int)
    requires
        0 <= k < n <= met.len(),
        met[k] == name,
    ensures
        times(met, n, name) > 0,
    decreases n,
{
    if k < n - 1 {
        lemma_met(met, (n - 1) as nat, name, k);
    }
}

proof fn lemma_not_met(met: Seq<Seq<char>>, n: nat, name: Seq<char>)
    requires
        n <= met.len(),
        !met.contains(name),
    ensures
        times(met, n, name) == 0,
    decreases n,
{
    if n > 0 {
        lemma_not_met(met, (n - 1) as nat, name);
        assert(met.contains(met[n - 1]));
    }
}

/// The directory of an installed package: its name has a dot, but not first.
pub open spec fn is_package_dir(n: Seq<char>) -> bool {
    n.contains('.') && n[0] != '.'
}

/// The names with their counts: every name that is known has the number of
/// times that it was met.
pub open spec fn is_count(
    counts: Map<Seq<char>, u64>,
    known: Seq<Seq<char>>,
    met: Seq<Seq<char>>,
) -> bool {
    &&& forall|n: Seq<char>| #[trigger]
        counts.contains_key(n) <==> occurs(known, known.len(), n) || occurs(met, met.len(), n)
    &&& forall|n: Seq<char>| #[trigger]
        counts.contains_key(n) ==> counts[n] == times(met, met.len(), n)
}

/// Counts how often names were met.
fn count_names(known: &Vec<String>, met: &Vec<String>) -> (r: NameMap<u64>)
    ensures
        r.wf(),
        is_count(r@, text::owned(known@), text::owned(met@)),
{
    let ghost ks = text::owned(known@);
    let ghost ms = text::owned(met@);
    let mut r: NameMap<u64> = NameMap::new();
    let mut i: usize = 0;
    while i < known.len()
        invariant
            i <= known.len(),
            ks == text::owned(known@),
            r.wf(),
            forall|n: Seq<char>| #[trigger] r@.contains_key(n) <==> occurs(ks, i as nat, n),
            forall|n: Seq<char>| #[trigger] r@.contains_key(n) ==> r@[n] == 0,
        decreases known.len() - i,
    {
        let ghost before = r@;
        r.insert(known[i].as_str(), 0);
        proof {
            assert(ks[i as int] == known@[i as int]@);
            assert forall|n: Seq<char>| #[trigger]
                r@.contains_key(n) <==> occurs(ks, (i + 1) as nat, n) by {
                assert(before.contains_key(n) <==> occurs(ks, i as nat, n));
                if occurs(ks, i as nat, n) {
                    let k = choose|k: int| 0 <= k < i && #[trigger] ks[k] == n;
                    assert(ks[k] == n);
                }
            }
        }
        i += 1;
    }
    let mut k: usize = 0;
    proof {
        assert forall|n: Seq<char>| !occurs(ms, 0, n) by {}
    }
    while k < met.len()
        invariant
            k <= met.len(),
            ms == text::owned(met@),
            r.wf(),
            forall|n: Seq<char>| #[trigger]
                r@.contains_key(n) <==> occurs(ks, ks.len(), n) || occurs(ms, k as nat, n),
            forall|n: Seq<char>| #[trigger]
                r@.contains_key(n) ==> r@[n] == times(ms, k as nat, n),
        decreases met.len() - k,
    {
        let name = met[k].as_str();
        let ghost before = r@;
        assert(ms[k as int] == name@);
        let c: u64 = match r.get(name) {
            Some(c) => *c,
            None => 0,
        };
        proof {
            lemma_times(ms, k as nat, name@);
            lemma_absent(ms, k as nat, name@);
        }
        r.insert(name, c + 1);
        proof {
            assert forall|n: Seq<char>| #[trigger]
                r@.contains_key(n) <==> occurs(ks, ks.len(), n) || occurs(
                    ms,
                    (k + 1) as nat,
                    n,
                ) by {
                assert(before.contains_key(n) <==> occurs(ks, ks.len(), n) || occurs(
                    ms,
                    k as nat,
                    n,
                ));
                if occurs(ms, k as nat, n) {
                    let j = choose|j: int| 0 <= j < k && #[trigger] ms[j] == n;
                    assert(ms[j] == n);
                }
            }
            assert forall|n: Seq<char>| #[trigger] r@.contains_key(n) implies r@[n] == times(
                ms,
                (k + 1) as nat,
                n,
            ) by {
                if n != name@ {
                    assert(before.contains_key(n));
                }
            }
        }
        k += 1;
    }
    r
}

proof fn lemma_absent(names: Seq<Seq<char>>, n: nat, name: Seq<char>)
    ensures
        !occurs(names, n, name) ==> times(names, n, name) == 0,
    decreases n,
{
    if n > 0 {
        lemma_absent(names, (n - 1) as nat, name);
        if occurs(names, (n - 1) as nat, name) {
            let k = choose|k: int| 0 <= k < n - 1 && #[trigger] names[k] == name;
            assert(names[k] == name);
        } else {
            if names[n - 1] == name {
                assert(occurs(names, n, name));
            }
        }
    }
}

/// The names of those directories that are of installed packages.
pub fn installed_pkgs(dirs: &Vec<String>) -> (r: Vec<String>)
    ensures
        text::owned(r@) == text::owned(dirs@).filter(|n: Seq<char>| is_package_dir(n)),
{
    let ghost keep = |n: Seq<char>| is_package_dir(n);
    pick(dirs, true, Ghost(keep))
}

/// The names of those processes that are of applications: they have a dot.
pub fn application_names(names: &Vec<String>) -> (r: Vec<String>)
    ensures
        text::owned(r@) == text::owned(names@).filter(|n: Seq<char>| n.contains('.')),
{
    let ghost keep = |n: Seq<char>| n.contains('.');
    pick(names, false, Ghost(keep))
}

fn pick(names: &Vec<String>, dirs: bool, Ghost(keep): Ghost<spec_fn(Seq<char>) -> bool>) -> (r: Vec<
    String,
>)
    requires
        dirs ==> keep == (|n: Seq<char>| is_package_dir(n)),
        !dirs ==> keep == (|n: Seq<char>| n.contains('.')),
    ensures
        text::owned(r@) == text::owned(names@).filter(keep),
{
    let ghost all = text::owned(names@);
    let mut r: Vec<String> = Vec::new();
    let mut i: usize = 0;
    proof {
        reveal(Seq::filter);
        assert(all.take(0) =~= Seq::<Seq<char>>::empty());
        assert(text::owned(r@) =~= all.take(0).filter(keep));
    }
    while i < names.len()
        invariant
            i <= names.len(),
            all == text::owned(names@),
            dirs ==> keep == (|n: Seq<char>| is_package_dir(n)),
            !dirs ==> keep == (|n: Seq<char>| n.contains('.')),
            text::owned(r@) == all.take(i as int).filter(keep),
        decreases names.len() - i,
    {
        let s = names[i].as_str();
        let dotted: bool = text::has_char(s, '.');
        let good: bool = if dirs {
            dotted && s.get_char(0) != '.'
        } else {
            dotted
        };
        let ghost before = r@;
        assert(all[i as int] == s@);
        if good {
            r.push(s.to_owned());
        }
        proof {
            reveal(Seq::filter);
            assert(all.take(i + 1).drop_last() =~= all.take(i as int));
            assert(all.take(i + 1).last() == s@);
            if good {
                assert(text::owned(r@) =~= text::owned(before).push(s@));
            }
        }
        i += 1;
    }
    proof {
        assert(all.take(i as int) =~= all);
    }
    r
}

/// The packages that fit best: of those that are installed or run, by how many
/// processes they have.
pub fn suggest_pkgs(installed: &Vec<String>, running: &Vec<String>, q: &str) -> (r: Vec<
    (String, u64),
>)
    ensures
        exists|counts: Map<Seq<char>, u64>, list: Seq<(Seq<char>, u64)>| #[trigger]
            is_ranking(list, counts, http::lowered(q@)) && is_count(
                counts,
                text::owned(installed@),
                text::owned(running@),
            ) && ranked_views(r@) == list.take(at_most_twenty(list.len()) as int),
{
    let counts = count_names(installed, running);
    let lq = http::to_lower(q);
    let r = rank_top(&counts, lq.as_str());
    proof {
        let list = choose|list: Seq<(Seq<char>, u64)>| #[trigger]
            is_ranking(list, counts@, lq@) && ranked_views(r@) == list.take(
                at_most_twenty(list.len()) as int,
            );
        assert(is_ranking(list, counts@, http::lowered(q@)));
    }
    r
}

/// The threads that fit best, by how often their name was met.
pub fn suggest_threads(met: &Vec<String>, q: &str) -> (r: Vec<(String, u64)>)
    ensures
        exists|counts: Map<Seq<char>, u64>, list: Seq<(Seq<char>, u64)>| #[trigger]
            is_ranking(list, counts, http::lowered(q@)) && is_count(
                counts,
                seq![],
                text::owned(met@),
            ) && ranked_views(r@) == list.take(at_most_twenty(list.len()) as int),
{
    let none: Vec<String> = Vec::new();
    proof {
        assert(text::owned(none@) =~= Seq::<Seq<char>>::empty());
    }
    suggest_pkgs(&none, met, q)
}

/// A text without the zeros and line feeds at its end.
pub open spec fn without_tail(s: Seq<char>) -> Seq<char>
    decreases s.len(),
{
    if s.len() > 0 && (s.last() == '\0' || s.last() == '\n') {
        without_tail(s.drop_last())
    } else {
        s
    }
}

/// The name of a thread, from what the kernel says of it; nothing where it is
/// blank.
pub fn thread_comm(s: &str) -> (r: Option<String>)
    ensures
        ({
            let n = text::trimmed(without_tail(s@));
            match r {
                Some(t) => n.len() > 0 && t@ == n,
                None => n.len() == 0,
            }
        }),
{
    let mut k: usize = s.unicode_len();
    proof {
        assert(s@.take(k as int) =~= s@);
    }
    while k > 0 && (s.get_char(k - 1) == '\0' || s.get_char(k - 1) == '\n')
        invariant
            k <= s@.len(),
            without_tail(s@) == without_tail(s@.take(k as int)),
        decreases k,
    {
        proof {
            assert(s@.take(k as int).last() == s@[k - 1]);
            assert(s@.take(k as int).drop_last() =~= s@.take(k - 1));
        }
        k = k - 1;
    }
    proof {
        if k > 0 {
            assert(s@.take(k as int).last() == s@[k - 1]);
        }
    }
    let t = text::trim(text::head(s, k));
    if t.is_empty() {
        None
    } else {
        Some(t.to_owned())
    }
}

} // verus!
