//! The order of names: character by character.
use vstd::prelude::*;

use crate::text;

verus! {

broadcast use vstd::string::group_string_axioms;

/// The order of texts: character by character.
pub open spec fn before(a: Seq<char>, b: Seq<char>) -> bool
    decreases a.len(),
{
    if a.len() == 0 {
        b.len() > 0
    } else if b.len() == 0 {
        false
    } else if a[0] == b[0] {
        before(a.skip(1), b.skip(1))
    } else {
        (a[0] as int) < b[0] as int
    }
}

/// The names stand in ascending order, none twice.
pub open spec fn ascending(names: Seq<Seq<char>>) -> bool {
    forall|i: int, j: int| 0 <= i < j < names.len() ==> before(#[trigger] names[i], #[trigger] names[j])
}

pub proof fn lemma_before_irreflexive(a: Seq<char>)
    ensures
        !before(a, a),
    decreases a.len(),
{
    if a.len() > 0 {
        lemma_before_irreflexive(a.skip(1));
    }
}

pub proof fn lemma_before_transitive(a: Seq<char>, b: Seq<char>, c: Seq<char>)
    requires
        before(a, b),
        before(b, c),
    ensures
        before(a, c),
    decreases a.len(),
{
    if a.len() > 0 && b.len() > 0 && c.len() > 0 && a[0] == b[0] && b[0] == c[0] {
        lemma_before_transitive(a.skip(1), b.skip(1), c.skip(1));
    }
}

pub proof fn lemma_before_total(a: Seq<char>, b: Seq<char>)
    ensures
        a == b || before(a, b) || before(b, a),
    decreases a.len(),
{
    if a.len() > 0 && b.len() > 0 && a[0] == b[0] {
        lemma_before_total(a.skip(1), b.skip(1));
        if a.skip(1) == b.skip(1) {
            assert(a =~= seq![a[0]] + a.skip(1));
            assert(b =~= seq![b[0]] + b.skip(1));
            assert(a == b);
        }
    } else if a.len() == 0 && b.len() == 0 {
        assert(a =~= b);
    }
}

/// There is one ascending order of a set of names only.
pub proof fn ascending_is_unique(a: Seq<Seq<char>>, b: Seq<Seq<char>>)
    requires
        ascending(a),
        ascending(b),
        a.to_set() == b.to_set(),
    ensures
        a == b,
    decreases a.len(),
{
    if a.len() == 0 {
        if b.len() > 0 {
            assert(b.to_set().contains(b[0]));
            assert(a.to_set().contains(b[0]));
        }
        assert(a =~= b);
    } else {
        assert(a.to_set().contains(a[0]));
        assert(b.contains(a[0]));
        let j = b.index_of(a[0]);
        assert(b.to_set().contains(b[0]));
        assert(a.contains(b[0]));
        let i = a.index_of(b[0]);
        if j != 0 {
            assert(before(b[0], b[j]));
            if i != 0 {
                assert(before(a[0], a[i]));
                lemma_before_transitive(a[0], b[0], a[0]);
            }
            lemma_before_irreflexive(a[0]);
        }
        assert(a[0] == b[0]);
        let ta = a.skip(1);
        let tb = b.skip(1);
        assert forall|x: Seq<char>| ta.contains(x) <==> tb.contains(x) by {
            if ta.contains(x) {
                let k = ta.index_of(x);
                assert(a[k + 1] == x);
                assert(a.to_set().contains(x));
                assert(b.contains(x));
                let m = b.index_of(x);
                if m == 0 {
                    assert(before(a[0], a[k + 1]));
                    lemma_before_irreflexive(a[0]);
                }
                assert(tb[m - 1] == x);
            }
            if tb.contains(x) {
                let k = tb.index_of(x);
                assert(b[k + 1] == x);
                assert(b.to_set().contains(x));
                assert(a.contains(x));
                let m = a.index_of(x);
                if m == 0 {
                    assert(before(b[0], b[k + 1]));
                    lemma_before_irreflexive(b[0]);
                }
                assert(ta[m - 1] == x);
            }
        }
        assert(ta.to_set() =~= tb.to_set());
        assert(ascending(ta)) by {
            assert forall|i: int, j: int| 0 <= i < j < ta.len() implies before(
                #[trigger] ta[i],
                #[trigger] ta[j],
            ) by {
                assert(before(a[i + 1], a[j + 1]));
            }
        }
        assert(ascending(tb)) by {
            assert forall|i: int, j: int| 0 <= i < j < tb.len() implies before(
                #[trigger] tb[i],
                #[trigger] tb[j],
            ) by {
                assert(before(b[i + 1], b[j + 1]));
            }
        }
        ascending_is_unique(ta, tb);
        assert(a =~= seq![a[0]] + ta);
        assert(b =~= seq![b[0]] + tb);
    }
}

/// Whether one text comes before another.
pub fn comes_before(a: &str, b: &str) -> (r: bool)
    ensures
        r == before(a@, b@),
{
    let x = text::chars_of(a);
    let y = text::chars_of(b);
    let mut i: usize = 0;
    assert(a@.skip(0) == a@);
    assert(b@.skip(0) == b@);
    while i < x.len() && i < y.len()
        invariant
            i <= x.len(),
            i <= y.len(),
            x@ == a@,
            y@ == b@,
            before(a@, b@) == before(a@.skip(i as int), b@.skip(i as int)),
        decreases x.len() - i,
    {
        assert(a@.skip(i as int)[0] == x@[i as int]);
        assert(b@.skip(i as int)[0] == y@[i as int]);
        let p: char = x[i];
        let q: char = y[i];
        if p != q {
            return p < q;
        }
        assert(a@.skip(i as int).skip(1) == a@.skip(i + 1));
        assert(b@.skip(i as int).skip(1) == b@.skip(i + 1));
        i += 1;
    }
    x.len() == i && i < y.len()
}

/// Puts a name into an ascending list, unless it is there.
pub fn insert_ascending(names: &mut Vec<String>, name: &str)
    requires
        ascending(text::owned(old(names)@)),
    ensures
        ascending(text::owned(final(names)@)),
        text::owned(final(names)@).to_set() == text::owned(old(names)@).to_set().insert(name@),
{
    let ghost a = text::owned(names@);
    let mut i: usize = 0;
    while i < names.len() && comes_before(names[i].as_str(), name)
        invariant
            i <= names.len(),
            a == text::owned(names@),
            forall|j: int| 0 <= j < i ==> before(#[trigger] a[j], name@),
        decreases names.len() - i,
    {
        i += 1;
    }
    if i < names.len() && text::same(names[i].as_str(), name) {
        assert(a[i as int] == name@);
        assert(a.to_set() =~= a.to_set().insert(name@));
        return ;
    }
    proof {
        if i < names.len() {
            assert(a[i as int] == names@[i as int]@);
            lemma_before_total(a[i as int], name@);
        }
        assert forall|j: int| i <= j < a.len() implies before(name@, #[trigger] a[j]) by {
            if j > i {
                assert(before(a[i as int], a[j]));
                lemma_before_transitive(name@, a[i as int], a[j]);
            }
        }
    }
    names.insert(i, name.to_owned());
    proof {
        let b = text::owned(names@);
        assert(b =~= a.insert(i as int, name@));
        assert forall|x: int, y: int| 0 <= x < y < b.len() implies before(
            #[trigger] b[x],
            #[trigger] b[y],
        ) by {
            if x < i && y < i {
                assert(before(a[x], a[y]));
            } else if x < i && y == i {
                assert(before(a[x], name@));
            } else if x < i {
                assert(before(a[x], a[y - 1]));
            } else if x == i {
                assert(before(name@, a[y - 1]));
            } else {
                assert(before(a[x - 1], a[y - 1]));
            }
        }
        assert forall|n: Seq<char>| b.contains(n) <==> (a.contains(n) || n == name@) by {
            if a.contains(n) {
                let k = a.index_of(n);
                if k < i {
                    assert(b[k] == n);
                } else {
                    assert(b[k + 1] == n);
                }
            }
            if n == name@ {
                assert(b[i as int] == n);
            }
            if b.contains(n) {
                let k = b.index_of(n);
                if k < i {
                    assert(a[k] == n);
                } else if k > i {
                    assert(a[k - 1] == n);
                }
            }
        }
        assert(b.to_set() =~= a.to_set().insert(name@));
    }
}

/// The first character that differs decides, and a name comes before every
/// longer one that starts with it.
pub proof fn first_difference_decides(
    s: Seq<char>,
    a: char,
    b: char,
    x: Seq<char>,
    y: Seq<char>,
)
    requires
        a < b,
    ensures
        before(s + seq![a] + x, s + seq![b] + y),
        !before(s + seq![b] + y, s + seq![a] + x),
        before(s, s + seq![a] + x),
    decreases s.len(),
{
    let p = s + seq![a] + x;
    let q = s + seq![b] + y;
    if s.len() == 0 {
        assert(p[0] == a && q[0] == b);
    } else {
        let t = s.skip(1);
        first_difference_decides(t, a, b, x, y);
        assert(p[0] == s[0] && q[0] == s[0]);
        assert(p.skip(1) =~= t + seq![a] + x);
        assert(q.skip(1) =~= t + seq![b] + y);
    }
}

} // verus!
