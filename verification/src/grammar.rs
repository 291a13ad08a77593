//! The lines of the rule file: comments, package rules, blocks, one-line thread
//! rules and refresh-rate settings.
use vstd::prelude::*;

use crate::number;
use crate::text;

verus! {

broadcast use vstd::string::group_string_axioms;

/// One more than the longest package name, in bytes.
pub const MAX_PKG_LEN: usize = 128;

/// One more than the longest thread name, in bytes.
pub const MAX_THREAD_LEN: usize = 32;

/// A comment starts at `i`: `#` or `//` behind white space.
pub open spec fn comment_here(s: Seq<char>, i: int) -> bool {
    0 < i < s.len() && is_comment_mark(s.skip(i)) && text::is_space(s[i - 1])
}

/// The text starts with `#` or `//`.
pub open spec fn is_comment_mark(s: Seq<char>) -> bool {
    s.len() > 0 && (s[0] == '#' || (s[0] == '/' && s.len() > 1 && s[1] == '/'))
}

/// Where the first comment from `i` on starts; the length of the line where
/// there is none.
pub open spec fn comment_from(s: Seq<char>, i: int) -> int
    decreases s.len() - i,
{
    if i >= s.len() {
        s.len() as int
    } else if comment_here(s, i) {
        i
    } else {
        comment_from(s, i + 1)
    }
}

/// The line without its comment and the white space before that.
pub open spec fn uncommented(s: Seq<char>) -> Seq<char> {
    let k = comment_from(s, 0);
    if k < s.len() {
        text::trimmed_end(s.take(k))
    } else {
        s
    }
}

proof fn lemma_comment_from(s: Seq<char>, i: int, k: int)
    requires
        0 <= i <= k <= s.len(),
        forall|j: int| i <= j < k ==> !comment_here(s, j),
        k < s.len() ==> comment_here(s, k),
    ensures
        comment_from(s, i) == k,
    decreases k - i,
{
    if i < k {
        assert(!comment_here(s, i));
        lemma_comment_from(s, i + 1, k);
    }
}

/// Where a comment starts, in characters.
fn comment_start(s: &str) -> (r: Option<usize>)
    ensures
        match r {
            Some(i) => i == comment_from(s@, 0) && i < s@.len(),
            None => comment_from(s@, 0) == s@.len(),
        },
{
    let cs = text::chars_of(s);
    let n: usize = cs.len();
    let mut i: usize = 0;
    while i < n
        invariant
            i <= n,
            n == cs.len(),
            cs@ == s@,
            forall|j: int| 0 <= j < i ==> !comment_here(s@, j),
        decreases n - i,
    {
        proof {
            let rest = s@.skip(i as int);
            assert(rest[0] == s@[i as int]);
            if i + 1 < n {
                assert(rest[1] == s@[i + 1]);
            }
        }
        if i > 0 && text::space(cs[i - 1]) && (cs[i] == '#' || (cs[i] == '/' && n - i > 1 && cs[i
            + 1] == '/')) {
            proof {
                lemma_comment_from(s@, 0, i as int);
            }
            return Some(i);
        }
        assert(!comment_here(s@, i as int));
        i += 1;
    }
    proof {
        lemma_comment_from(s@, 0, n as int);
    }
    None
}

/// The length, in bytes, of what stands before the comment of a line.
pub fn comment_at(s: &str) -> (r: Option<usize>)
    ensures
        match r {
            Some(n) => comment_from(s@, 0) < s@.len() && n == text::byte_len(uncommented(s@)),
            None => comment_from(s@, 0) == s@.len(),
        },
{
    match comment_start(s) {
        Some(i) => Some(text::byte_length(text::trim_end(text::head(s, i)))),
        None => None,
    }
}

/// The line without its comment.
pub fn strip_comment<'a>(s: &'a str) -> (r: &'a str)
    ensures
        r@ == uncommented(s@),
{
    match comment_start(s) {
        Some(i) => text::trim_end(text::head(s, i)),
        None => s,
    }
}

/// A line that says nothing: blank, or a comment from its start on.
pub open spec fn is_blank_or_comment(s: Seq<char>) -> bool {
    let t = text::trimmed(s);
    t.len() == 0 || is_comment_mark(t)
}

/// Whether the text starts with `#` or `//`.
fn comment_mark(s: &str) -> (r: bool)
    ensures
        r == is_comment_mark(s@),
{
    let n: usize = s.unicode_len();
    n > 0 && (s.get_char(0) == '#' || (s.get_char(0) == '/' && n > 1 && s.get_char(1) == '/'))
}

/// Whether a line says nothing.
pub fn is_skip_line(t: &str) -> (r: bool)
    ensures
        r == is_blank_or_comment(t@),
{
    let t = text::trim(t);
    t.is_empty() || comment_mark(t)
}

/// One of the names of core tiers.
pub open spec fn is_tier_name(t: Seq<char>) -> bool {
    t == "e-core"@ || t == "p-core"@ || t == "hp-core"@ || t == "all-core"@
}

/// A row of digits, maybe empty.
pub open spec fn is_number(t: Seq<char>) -> bool {
    number::all_digits(t)
}

/// One item of a CPU specification: a tier name, a number, or two numbers with
/// a dash between them.
pub open spec fn is_spec_item(t: Seq<char>) -> bool {
    let k = text::first(t, '-') as int;
    ||| is_tier_name(t)
    ||| is_number(t)
    ||| (k < t.len() && 0 < k && k + 1 < t.len() && is_number(t.take(k)) && is_number(
        t.skip(k + 1),
    ))
}

/// The text has the shape of a CPU specification: it has items, and each of
/// them has the shape of one.
pub open spec fn has_spec_shape(s: Seq<char>) -> bool {
    let ps = text::pieces(s, ',');
    &&& exists|k: int| 0 <= k < ps.len() && text::trimmed(#[trigger] ps[k]).len() > 0
    &&& forall|k: int|
        0 <= k < ps.len() && text::trimmed(#[trigger] ps[k]).len() > 0 ==> is_spec_item(
            text::trimmed(ps[k]),
        )
}

/// Whether every character is a digit.
pub fn only_digits(s: &str) -> (r: bool)
    ensures
        r == number::all_digits(s@),
{
    let cs = text::chars_of(s);
    let mut i: usize = 0;
    while i < cs.len()
        invariant
            i <= cs.len(),
            cs@ == s@,
            forall|j: int| 0 <= j < i ==> number::is_digit(#[trigger] s@[j]),
        decreases cs.len() - i,
    {
        let c = cs[i];
        if !('0' <= c && c <= '9') {
            assert(!number::is_digit(s@[i as int]));
            return false;
        }
        i += 1;
    }
    true
}

/// Whether an item has the shape of one of a CPU specification.
fn spec_item(t: &str) -> (r: bool)
    ensures
        r == is_spec_item(t@),
{
    if text::same(t, "e-core") || text::same(t, "p-core") || text::same(t, "hp-core")
        || text::same(t, "all-core") || only_digits(t) {
        return true;
    }
    match text::split_once(t, '-') {
        Some((a, b)) => !a.is_empty() && !b.is_empty() && only_digits(a) && only_digits(b),
        None => false,
    }
}

/// Whether the text has the shape of a CPU specification.
pub fn spec_like(s: &str) -> (r: bool)
    ensures
        r == has_spec_shape(s@),
{
    let parts = text::split(s, ',');
    let ghost ps = text::pieces(s@, ',');
    let mut any: bool = false;
    let mut k: usize = 0;
    while k < parts.len()
        invariant
            k <= parts.len(),
            text::views(parts@) == ps,
            ps == text::pieces(s@, ','),
            any <==> exists|j: int| 0 <= j < k && text::trimmed(#[trigger] ps[j]).len() > 0,
            forall|j: int|
                0 <= j < k && text::trimmed(#[trigger] ps[j]).len() > 0 ==> is_spec_item(
                    text::trimmed(ps[j]),
                ),
        decreases parts.len() - k,
    {
        let t = text::trim(parts[k]);
        assert(t@ == text::trimmed(ps[k as int]));
        if !t.is_empty() {
            any = true;
            if !spec_item(t) {
                return false;
            }
        }
        k += 1;
    }
    any
}

/// A key and its value: what stands before the first `=`, and behind it.
pub open spec fn key_value(s: Seq<char>) -> Option<(Seq<char>, Seq<char>)> {
    let k = text::first(s, '=') as int;
    if k < s.len() {
        Some((text::trimmed(s.take(k)), text::trimmed(s.skip(k + 1))))
    } else {
        None
    }
}

/// A rule inside a block: key, value, and whether a `}` closes the block on
/// the same line. The value ends at the `}`.
pub open spec fn block_rule(s: Seq<char>) -> Option<(Seq<char>, Seq<char>, bool)> {
    let p = uncommented(s);
    let k = text::first(p, '=') as int;
    let key = text::trimmed(p.take(k));
    if k < p.len() && key.len() > 0 {
        let rest = p.skip(k + 1);
        let c = text::first(rest, '}') as int;
        Some((key, text::trimmed(rest.take(c)), c < rest.len()))
    } else {
        None
    }
}

/// Splits a rule inside a block.
pub fn split_rule_line<'a>(p: &'a str) -> (r: Option<(&'a str, &'a str, bool)>)
    ensures
        match r {
            Some((k, v, closed)) => block_rule(p@) == Some((k@, v@, closed)),
            None => block_rule(p@) is None,
        },
{
    let p = strip_comment(p);
    match text::split_once(p, '=') {
        Some((k, rest)) => {
            let key = text::trim(k);
            if key.is_empty() {
                return None;
            }
            match text::find(rest, '}') {
                Some(c) => Some((key, text::trim(text::head(rest, c)), true)),
                None => {
                    assert(rest@.take(rest@.len() as int) == rest@);
                    Some((key, text::trim(rest), false))
                },
            }
        },
        None => None,
    }
}

/// The line closes a block: `}`, alone or with white space or a comment behind.
pub open spec fn closes_block(p: Seq<char>) -> bool {
    p.len() > 0 && p[0] == '}' && {
        let r = p.skip(1);
        r.len() == 0 || text::is_space(r[0]) || is_comment_mark(r)
    }
}

/// Whether a line closes a block.
pub fn close_like(p: &str) -> (r: bool)
    ensures
        r == closes_block(p@),
{
    match text::strip_first(p, '}') {
        Some(r) => r.is_empty() || text::space(r.get_char(0)) || comment_mark(r),
        None => false,
    }
}

/// The text without one `}` at its end, trimmed.
pub open spec fn without_brace(s: Seq<char>) -> Seq<char> {
    if s.len() > 0 && s.last() == '}' {
        text::trimmed(s.drop_last())
    } else {
        s
    }
}

/// The name of a thread without the `}` behind it; a `}` alone is the name.
pub open spec fn thread_of(s: Seq<char>) -> Seq<char> {
    if without_brace(s).len() > 0 {
        without_brace(s)
    } else {
        s
    }
}

/// A thread rule on one line, `pkg { thread = cpus }` or `pkg { thread } = cpus`:
/// package, thread and CPUs.
pub open spec fn one_line_rule(body: Seq<char>) -> Option<(Seq<char>, Seq<char>, Seq<char>)> {
    let eq = text::first(body, '=') as int;
    let left = text::trimmed_end(body.take(eq));
    let ob = text::first(left, '{') as int;
    let pkg = text::trimmed(left.take(ob));
    let thread = thread_of(text::trimmed(left.skip(ob + 1)));
    if eq < body.len() && ob < left.len() && pkg.len() > 0 && thread.len() > 0 {
        Some((pkg, thread, without_brace(text::trimmed(body.skip(eq + 1)))))
    } else {
        None
    }
}

/// Drops one `}` at the end.
fn drop_brace<'a>(s: &'a str) -> (r: &'a str)
    ensures
        r@ == without_brace(s@),
{
    match text::strip_last(s, '}') {
        Some(t) => text::trim(t),
        None => s,
    }
}

/// Splits a thread rule on one line.
pub fn split_single_line<'a>(body: &'a str) -> (r: Option<(&'a str, &'a str, &'a str)>)
    ensures
        match r {
            Some((pkg, thread, cpus)) => one_line_rule(body@) == Some((pkg@, thread@, cpus@)),
            None => one_line_rule(body@) is None,
        },
{
    match text::split_once(body, '=') {
        Some((before, after)) => {
            let cpus = drop_brace(text::trim(after));
            let left = text::trim_end(before);
            match text::split_once(left, '{') {
                Some((a, b)) => {
                    let pkg = text::trim(a);
                    let inner = text::trim(b);
                    let bare = drop_brace(inner);
                    let thread: &str = if bare.is_empty() {
                        inner
                    } else {
                        bare
                    };
                    if !pkg.is_empty() && !thread.is_empty() {
                        Some((pkg, thread, cpus))
                    } else {
                        None
                    }
                },
                None => None,
            }
        },
        None => None,
    }
}

/// What a line outside any block says.
pub enum OuterLine<'a> {
    /// CPUs for a package; with `open` a block follows.
    Rule { pkg: &'a str, cpus: &'a str, open: bool },
    /// A block without CPUs of its own.
    BareOpen { pkg: &'a str },
    /// A package whose block may open on the next line.
    Pending { pkg: &'a str },
    /// A thread rule on one line.
    Single { pkg: &'a str, thread: &'a str, cpus: &'a str, open: bool },
    /// A `}` without a block.
    Junk,
}

/// The contents of an [`OuterLine`].
pub ghost enum OuterView {
    Rule { pkg: Seq<char>, cpus: Seq<char>, open: bool },
    BareOpen { pkg: Seq<char> },
    Pending { pkg: Seq<char> },
    Single { pkg: Seq<char>, thread: Seq<char>, cpus: Seq<char>, open: bool },
    Junk,
}

impl<'a> View for OuterLine<'a> {
    type V = OuterView;

    open spec fn view(&self) -> OuterView {
        match self {
            OuterLine::Rule { pkg, cpus, open } => OuterView::Rule {
                pkg: pkg@,
                cpus: cpus@,
                open: *open,
            },
            OuterLine::BareOpen { pkg } => OuterView::BareOpen { pkg: pkg@ },
            OuterLine::Pending { pkg } => OuterView::Pending { pkg: pkg@ },
            OuterLine::Single { pkg, thread, cpus, open } => OuterView::Single {
                pkg: pkg@,
                thread: thread@,
                cpus: cpus@,
                open: *open,
            },
            OuterLine::Junk => OuterView::Junk,
        }
    }
}

/// What a line outside any block says, comment apart.
pub open spec fn outer(line: Seq<char>) -> OuterView {
    let p = uncommented(line);
    let open = p.len() > 0 && p.last() == '{';
    let body = if open {
        text::trimmed_end(p.drop_last())
    } else {
        p
    };
    match one_line_rule(body) {
        Some((pkg, thread, cpus)) => OuterView::Single { pkg, thread, cpus, open },
        None => if !open && closes_block(body) {
            OuterView::Junk
        } else {
            match key_value(body) {
                Some((pkg, cpus)) => if cpus.len() > 0 {
                    OuterView::Rule { pkg, cpus, open }
                } else if open {
                    OuterView::BareOpen { pkg }
                } else {
                    OuterView::Pending { pkg }
                },
                None => if open {
                    OuterView::BareOpen { pkg: body }
                } else {
                    OuterView::Pending { pkg: body }
                },
            }
        },
    }
}

/// Reads a line outside any block.
pub fn parse_outer<'a>(p: &'a str) -> (r: OuterLine<'a>)
    ensures
        r@ == outer(p@),
{
    let p = strip_comment(p);
    let (open, body): (bool, &'a str) = match text::strip_last(p, '{') {
        Some(b) => (true, text::trim_end(b)),
        None => (false, p),
    };
    if let Some((pkg, thread, cpus)) = split_single_line(body) {
        return OuterLine::Single { pkg, thread, cpus, open };
    }
    if !open && close_like(body) {
        return OuterLine::Junk;
    }
    match text::split_once(body, '=') {
        Some((a, b)) => {
            let pkg = text::trim(a);
            let cpus = text::trim(b);
            if cpus.is_empty() {
                if open {
                    OuterLine::BareOpen { pkg }
                } else {
                    OuterLine::Pending { pkg }
                }
            } else {
                OuterLine::Rule { pkg, cpus, open }
            }
        },
        None => {
            if open {
                OuterLine::BareOpen { pkg: body }
            } else {
                OuterLine::Pending { pkg: body }
            }
        },
    }
}

/// A utilisation clamp: a number from 0 to 1024.
pub open spec fn clamp_value(t: Seq<char>) -> Option<int> {
    match number::signed(t, i32::MIN as int, i32::MAX as int) {
        Some(v) => if 0 <= v <= 1024 {
            Some(v)
        } else {
            None
        },
        None => None,
    }
}

/// The parts of a rule's value: the CPUs, and the clamps that a trailing
/// `-min-max` sets. Without such a pair the clamps are -1.
pub open spec fn rule_spec(spec: Seq<char>) -> (Seq<char>, int, int) {
    let ps = text::pieces(spec, '-');
    let n = ps.len() as int;
    if n < 3 {
        (spec, -1, -1)
    } else {
        match (clamp_value(ps[n - 2]), clamp_value(ps[n - 1])) {
            (Some(lo), Some(hi)) => (text::joined(ps.take(n - 2), seq!['-']), lo, hi),
            _ => (spec, -1, -1),
        }
    }
}

/// Reads a utilisation clamp.
fn parse_clamp(t: &str) -> (r: Option<i32>)
    ensures
        match r {
            Some(v) => clamp_value(t@) == Some(v as int),
            None => clamp_value(t@) is None,
        },
{
    match number::parse_i32(t) {
        Some(v) => if 0 <= v && v <= 1024 {
            Some(v)
        } else {
            None
        },
        None => None,
    }
}

/// Splits a rule's value into CPUs and clamps.
pub fn parse_rule_spec(spec: &str) -> (r: (String, i32, i32))
    ensures
        rule_spec(spec@) == (r.0@, r.1 as int, r.2 as int),
{
    let parts = text::split(spec, '-');
    let n: usize = parts.len();
    if n < 3 {
        return (spec.to_owned(), -1, -1);
    }
    let ghost ps = text::pieces(spec@, '-');
    assert(parts@[n - 1]@ == ps[n - 1]);
    assert(parts@[n - 2]@ == ps[n - 2]);
    match (parse_clamp(parts[n - 2]), parse_clamp(parts[n - 1])) {
        (Some(lo), Some(hi)) => {
            proof {
                reveal_strlit("-");
                assert("-"@ =~= seq!['-']);
            }
            (text::join_first(&parts, n - 2, "-"), lo, hi)
        },
        _ => (spec.to_owned(), -1, -1),
    }
}

/// What is appended without a separator is appended to the last part.
proof fn lemma_last_piece(a: Seq<char>, t: Seq<char>, c: char)
    requires
        !t.contains(c),
    ensures
        text::pieces(a + t, c).len() > 0,
        text::pieces(a, c).len() > 0,
        text::pieces(a + t, c).last() == text::pieces(a, c).last() + t,
    decreases a.len(),
{
    let s = a + t;
    text::lemma_first(a, c);
    let k = text::first(a, c) as int;
    if k < a.len() {
        assert forall|j: int| 0 <= j < k implies s[j] != c by {
            assert(s[j] == a[j]);
        }
        text::lemma_first_at(s, c, k);
        assert(s.skip(k + 1) =~= a.skip(k + 1) + t);
        lemma_last_piece(a.skip(k + 1), t, c);
    } else {
        if s.contains(c) {
            let j = s.index_of(c);
            if j < a.len() {
                assert(a[j] == c);
            } else {
                assert(t[j - a.len()] == c);
            }
        }
        text::lemma_pieces_single(s, c);
        text::lemma_pieces_single(a, c);
    }
}

/// A text with two dashes is no item of a CPU specification.
pub(crate) proof fn lemma_two_dashes(t: Seq<char>, p: int, q: int)
    requires
        0 <= p < q < t.len(),
        t[p] == '-',
        t[q] == '-',
    ensures
        !is_spec_item(t),
{
    reveal_strlit("e-core");
    reveal_strlit("p-core");
    reveal_strlit("hp-core");
    reveal_strlit("all-core");
    assert forall|i: int| 0 <= i < 6 && i != 1 implies "e-core"@[i] != '-' by {}
    assert forall|i: int| 0 <= i < 6 && i != 1 implies "p-core"@[i] != '-' by {}
    assert forall|i: int| 0 <= i < 7 && i != 2 implies "hp-core"@[i] != '-' by {}
    assert forall|i: int| 0 <= i < 8 && i != 3 implies "all-core"@[i] != '-' by {}
    if is_number(t) {
        assert(number::is_digit(t[p]));
    }
    text::lemma_first(t, '-');
    let k = text::first(t, '-') as int;
    assert(k <= p);
    assert(t.skip(k + 1)[q - k - 1] == '-');
    assert(!number::is_digit(t.skip(k + 1)[q - k - 1]));
}

/// A clamp is a row of digits, maybe with a plus sign before it.
proof fn lemma_clamp_text(t: Seq<char>)
    requires
        clamp_value(t) is Some,
        !t.contains('-'),
    ensures
        t.len() > 0,
        !t.contains(','),
        number::is_digit(t.last()),
{
    let d = number::without_plus(t);
    if t[0] == '-' {
        assert(t.contains('-'));
    }
    assert(number::all_digits(d));
    assert(d.len() > 0);
    assert(d[d.len() - 1] == t.last());
    assert(number::is_digit(d[d.len() - 1]));
    if t.contains(',') {
        let j = t.index_of(',');
        if t[0] == '+' {
            assert(j > 0);
            assert(d[j - 1] == t[j]);
            assert(number::is_digit(d[j - 1]));
        } else {
            assert(number::is_digit(d[j]));
        }
    }
}

/// What has the shape of a CPU specification names no clamps: as the value of a
/// rule it is all about CPUs.
pub proof fn specs_name_no_clamps(s: Seq<char>)
    requires
        has_spec_shape(s),
    ensures
        rule_spec(s) == (s, -1int, -1int),
{
    let ps = text::pieces(s, '-');
    let n = ps.len() as int;
    if n >= 3 && clamp_value(ps[n - 2]) is Some && clamp_value(ps[n - 1]) is Some {
        text::join_undoes_split(s, '-');
        text::lemma_pieces_hold_no_separator(s, '-');
        let a = ps[n - 2];
        let b = ps[n - 1];
        lemma_clamp_text(a);
        lemma_clamp_text(b);
        let front = text::joined(ps.drop_last().drop_last(), seq!['-']);
        let tail = seq!['-'] + a + seq!['-'] + b;
        assert(text::joined(ps, seq!['-']) == text::joined(ps.drop_last(), seq!['-']) + seq!['-']
            + b);
        assert(text::joined(ps.drop_last(), seq!['-']) == front + seq!['-'] + a);
        assert(s =~= front + tail);
        assert(!tail.contains(',')) by {
            if tail.contains(',') {
                let j = tail.index_of(',');
                if 1 <= j < 1 + a.len() {
                    assert(a[j - 1] == ',');
                } else if j >= 2 + a.len() {
                    assert(b[j - 2 - a.len()] == ',');
                }
            }
        }
        lemma_last_piece(front, tail, ',');
        let cs = text::pieces(s, ',');
        let m = cs.len() - 1;
        let l = cs[m];
        let r = text::pieces(front, ',').last();
        assert(l == r + tail);
        let (lo, hi) = text::lemma_core(l);
        let end = l.len() as int;
        assert(l[end - 1] == b.last());
        assert(!text::is_space(l[end - 1]));
        let p = r.len() as int;
        assert(l[p] == '-');
        let q = p + 1 + a.len();
        assert(l[q] == '-');
        assert(hi == end);
        assert(lo <= p);
        let t = text::trimmed(l);
        assert(t[p - lo] == '-');
        assert(t[q - lo] == '-');
        lemma_two_dashes(t, p - lo, q - lo);
        assert(text::trimmed(cs[m]).len() > 0);
    }
}

} // verus!
