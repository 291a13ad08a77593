//! Which lines of the rule file belong to which package, and that a tidy file
//! has the rules of the one that it was made of.
use vstd::multiset::Multiset;
use vstd::prelude::*;

use crate::config;
use crate::config::{LoadView, RuleView};
use crate::cpuset::CpuTopology;
use crate::forms;
use crate::grammar;
use crate::layout;
use crate::layout::{KindView, UnitView};
use crate::refresh_edit;
use crate::refresh_lines;
use crate::text;

verus! {

broadcast use vstd::string::group_string_axioms;

/// The name of a package, as it stands in the file.
pub open spec fn is_package(s: Seq<char>) -> bool {
    forms::is_word(s) && !s.contains(',') && !text::starts(s, "refresh_"@)
}

/// The value of a CPU rule, as it stands in the file.
pub open spec fn is_value(s: Seq<char>) -> bool {
    forms::is_word(s) && !text::starts(s, "refresh-"@)
}

proof fn lemma_package(pkg: Seq<char>)
    requires
        is_package(pkg),
    ensures
        !refresh_lines::is_global_key(pkg),
        text::trimmed_end_of(pkg, '{') == pkg,
        text::trimmed(pkg) == pkg,
{
    forms::lemma_word(pkg);
    reveal_strlit("refresh_");
    reveal_strlit("refresh_timeout");
    reveal_strlit("refresh_active");
    reveal_strlit("refresh_idle");
    assert("refresh_timeout"@.take(8) =~= "refresh_"@);
    assert("refresh_active"@.take(8) =~= "refresh_"@);
    assert("refresh_idle"@.take(8) =~= "refresh_"@);
}

/// The characters of a line that is made of two words and what stands between
/// and behind them.
proof fn lemma_line(a: Seq<char>, mid: Seq<char>, b: Seq<char>, end: Seq<char>)
    requires
        forms::is_word(a),
        forms::is_word(b),
    ensures
        forall|c: char| #[trigger] (a + mid + b + end).contains(c) ==> a.contains(c) || mid.contains(
            c,
        ) || b.contains(c) || end.contains(c),
        (a + mid + b + end)[0] == a[0],
{
    let s = a + mid + b + end;
    assert forall|c: char| #[trigger] s.contains(c) implies a.contains(c) || mid.contains(c)
        || b.contains(c) || end.contains(c) by {
        let j = s.index_of(c);
        let n1 = a.len();
        let n2 = n1 + mid.len();
        let n3 = n2 + b.len();
        if j < n1 {
            assert(a[j] == c);
        } else if j < n2 {
            assert(mid[j - n1] == c);
        } else if j < n3 {
            assert(b[j - n2] == c);
        } else {
            assert(end[j - n3] == c);
        }
    }
}

/// `pkg=value` is a line of its package.
proof fn lemma_kind_of_package_line(pkg: Seq<char>, v: Seq<char>)
    requires
        is_package(pkg),
        forms::is_word(v),
    ensures
        layout::kind_of(forms::package_line(pkg, v)) == KindView::Pkg(pkg),
{
    let s = forms::package_line(pkg, v);
    lemma_package(pkg);
    forms::lemma_word(pkg);
    forms::lemma_word(v);
    let none = Seq::<char>::empty();
    lemma_line(pkg, seq!['='], v, none);
    assert(s =~= pkg + seq!['='] + v + none);
    assert forall|c: char| seq!['='].contains(c) implies c == '=' by {}
    assert(s.last() == v.last());
    forms::lemma_clean(s);
    forms::lemma_first_in(pkg, '=', v);
    forms::lemma_first_none(pkg, '{');
    assert(text::trimmed_end(pkg) == pkg);
    assert(!s.contains('{'));
    assert(grammar::one_line_rule(s) is None);
    assert(layout::named_package(s) == Some(pkg));
}

/// `pkg=cpus {` and `pkg {` start a block of the package.
#[verifier::rlimit(50)]
proof fn lemma_kind_of_opening_lines(pkg: Seq<char>, v: Seq<char>)
    requires
        is_package(pkg),
        forms::is_word(v),
    ensures
        layout::kind_of(forms::package_open_line(pkg, v)) == KindView::Block(pkg),
        layout::kind_of(forms::open_line(pkg)) == KindView::Block(pkg),
{
    lemma_package(pkg);
    forms::lemma_word(pkg);
    forms::lemma_word(v);
    let end = seq![' ', '{'];
    assert forall|c: char| end.contains(c) implies c == ' ' || c == '{' by {
        let j = end.index_of(c);
        assert(end[j] == c);
    }
    assert forall|c: char| seq!['='].contains(c) implies c == '=' by {}
    let s = forms::package_open_line(pkg, v);
    lemma_line(pkg, seq!['='], v, end);
    assert(s.last() == '{');
    forms::lemma_clean(s);
    assert(s[s.len() - 1] == '{');
    assert(s.contains('{'));
    assert(s =~= pkg + seq!['='] + (v + end));
    forms::lemma_first_in(pkg, '=', v + end);
    let body = forms::package_line(pkg, v);
    let cut = s.drop_last();
    let n = body.len() as int;
    assert(cut.take(n) =~= body);
    assert forall|j: int| n <= j < cut.len() implies text::is_space(cut[j]) by {}
    text::lemma_trimmed_end(cut, n);
    assert(body.last() == v.last());
    assert(text::trimmed_end(body) == body);
    forms::lemma_first_in(pkg, '=', v);
    forms::lemma_first_none(pkg, '{');
    assert(text::trimmed_end(pkg) == pkg);
    assert(grammar::one_line_rule(body) is None);
    assert(layout::named_package(s) == Some(pkg));
    let o = forms::open_line(pkg);
    let none = Seq::<char>::empty();
    assert forall|c: char| o.contains(c) implies pkg.contains(c) || end.contains(c) by {
        let j = o.index_of(c);
        if j < pkg.len() {
            assert(pkg[j] == c);
        } else {
            assert(end[j - pkg.len()] == c);
        }
    }
    assert(o[0] == pkg[0]);
    assert(o.last() == '{');
    assert(o[o.len() - 1] == '{');
    assert(o.contains('{'));
    forms::lemma_clean(o);
    forms::lemma_first_none(o, '=');
    text::lemma_pieces_single(o, ',');
    let m = pkg.len() as int;
    let front = o.drop_last();
    assert(front.take(m) =~= pkg);
    text::lemma_trimmed_end(front, m);
    assert(text::trimmed_end(pkg) == pkg);
    forms::lemma_first_none(pkg, '=');
    assert(grammar::one_line_rule(pkg) is None);
    assert(front.last() == ' ');
    assert(text::trimmed_end_of(front, '{') == front);
    assert(text::trimmed_end_of(o, '{') == front);
    assert(front[0] == pkg[0] && front[m - 1] == pkg[m - 1]);
    text::lemma_trimmed_is(front, 0, m);
    assert(front.subrange(0, m) =~= pkg);
    assert(layout::named_package(o) == Some(pkg));
}

/// `pkg{thread}=cpus` is a line of its package.
proof fn lemma_kind_of_compact_line(pkg: Seq<char>, thread: Seq<char>, v: Seq<char>)
    requires
        is_package(pkg),
        forms::is_word(thread),
        forms::is_word(v),
    ensures
        layout::kind_of(forms::compact_line(pkg, thread, v)) == KindView::Pkg(pkg),
{
    forms::lemma_outer_compact(pkg, thread, v);
    let s = forms::compact_line(pkg, thread, v);
    assert(s[pkg.len() as int] == '{');
    assert(s.contains('{'));
}

/// A line of the rule file in one of its common forms, and a block, belong to
/// the package that they name: a line with `{` at its end starts a block.
pub proof fn lines_belong_to_their_packages(
    pkg: Seq<char>,
    thread: Seq<char>,
    v: Seq<char>,
)
    requires
        is_package(pkg),
        forms::is_word(thread),
        forms::is_word(v),
    ensures
        layout::kind_of(forms::package_line(pkg, v)) == KindView::Pkg(pkg),
        layout::kind_of(forms::compact_line(pkg, thread, v)) == KindView::Pkg(pkg),
        layout::kind_of(forms::inline_line(pkg, thread, v)) == KindView::Pkg(pkg),
        layout::kind_of(forms::open_line(pkg)) == KindView::Block(pkg),
        layout::kind_of(forms::package_open_line(pkg, v)) == KindView::Block(pkg),
{
    forms::lemma_outer_inline(pkg, thread, v);
    lemma_kind_of_package_line(pkg, v);
    lemma_kind_of_compact_line(pkg, thread, v);
    lemma_kind_of_opening_lines(pkg, v);
}

/// The older forms of settings, with commas, are settings of the package that
/// they name, too.
#[verifier::rlimit(50)]
pub proof fn older_forms_are_settings(
    pkg: Seq<char>,
    t: Seq<char>,
    a: Seq<char>,
    i: Seq<char>,
)
    requires
        is_package(pkg),
        forms::is_word(t),
        forms::is_word(a),
        forms::is_word(i),
        !t.contains(','),
        !a.contains(','),
        !i.contains(','),
    ensures
        refresh_edit::is_hit(pkg + seq![','] + t + seq![','] + a + seq![','] + i, pkg),
        refresh_edit::is_hit(
            "refresh_app"@ + seq![','] + pkg + seq![','] + t + seq![','] + a + seq![','] + i,
            pkg,
        ),
{
    reveal_strlit("refresh_app");
    let r = "refresh_app"@;
    forms::lemma_word(pkg);
    forms::lemma_word(t);
    forms::lemma_word(a);
    forms::lemma_word(i);
    assert forall|k: int| 0 <= k < r.len() implies forms::is_plain(#[trigger] r[k]) && r[k] != ',' by {}
    assert(!r.contains(',')) by {
        if r.contains(',') {
            assert(r[r.index_of(',')] == ',');
        }
    }
    forms::lemma_word(r);
    let four = seq![pkg, t, a, i];
    let five = seq![r, pkg, t, a, i];
    let s4 = pkg + seq![','] + t + seq![','] + a + seq![','] + i;
    let s5 = r + seq![','] + pkg + seq![','] + t + seq![','] + a + seq![','] + i;
    lemma_comma_line(four);
    lemma_comma_line(five);
    reveal_with_fuel(text::joined, 6);
    assert(four.drop_last() =~= seq![pkg, t, a]);
    assert(seq![pkg, t, a].drop_last() =~= seq![pkg, t]);
    assert(seq![pkg, t].drop_last() =~= seq![pkg]);
    assert(text::joined(four, seq![',']) =~= s4);
    assert(five.drop_last() =~= seq![r, pkg, t, a]);
    assert(seq![r, pkg, t, a].drop_last() =~= seq![r, pkg, t]);
    assert(seq![r, pkg, t].drop_last() =~= seq![r, pkg]);
    assert(seq![r, pkg].drop_last() =~= seq![r]);
    assert(text::joined(five, seq![',']) =~= s5);
    assert(s4[0] == pkg[0] && s4.last() == i.last());
    assert(s5[0] == r[0] && s5.last() == i.last());
    text::lemma_trimmed_id(s4);
    text::lemma_trimmed_id(s5);
    assert(forms::is_plain(pkg[0]));
    forms::lemma_first_none(s4, '=');
    forms::lemma_first_none(s5, '=');
}

/// Words with commas between them are parted at the commas, and hold no `=`.
proof fn lemma_comma_line(ws: Seq<Seq<char>>)
    requires
        ws.len() > 0,
        forall|k: int| 0 <= k < ws.len() ==> forms::is_word(#[trigger] ws[k]) && !ws[k].contains(','),
    ensures
        text::pieces(text::joined(ws, seq![',']), ',') == ws,
        !text::joined(ws, seq![',']).contains('='),
    decreases ws.len(),
{
    text::split_undoes_join(ws, ',');
    let s = text::joined(ws, seq![',']);
    if ws.len() == 1 {
        forms::lemma_word(ws[0]);
    } else {
        let init = ws.drop_last();
        assert forall|k: int| 0 <= k < init.len() implies forms::is_word(#[trigger] init[k])
            && !init[k].contains(',') by {
            assert(init[k] == ws[k]);
        }
        lemma_comma_line(init);
        let last = ws[ws.len() - 1];
        forms::lemma_word(last);
        let front = text::joined(init, seq![',']);
        assert(s == front + seq![','] + last);
        if s.contains('=') {
            let j = s.index_of('=');
            if j < front.len() {
                assert(front[j] == '=');
            } else if j > front.len() {
                assert(last[j - front.len() - 1] == '=');
            }
        }
    }
}

/// A piece of a rule file.
pub ghost enum Piece {
    /// A blank line or a comment.
    Note(Seq<char>),
    /// A global setting.
    Global(Seq<char>, Seq<char>),
    /// CPUs of a package.
    Rule(Seq<char>, Seq<char>),
    /// A rule for threads on one line: package, thread and CPUs.
    Compact(Seq<char>, Seq<char>, Seq<char>),
    /// A block: package, CPUs of the package, and rules for threads.
    Block(Seq<char>, Option<Seq<char>>, Seq<(Seq<char>, Seq<char>)>),
    /// The rates of an application: package, seconds, active and idle rate.
    App(Seq<char>, i32, Seq<char>, Seq<char>),
}

/// The lines of a piece.
pub open spec fn lines_of(p: Piece) -> Seq<Seq<char>> {
    match p {
        Piece::Note(l) => seq![l],
        Piece::Global(k, v) => seq![forms::package_line(k, v)],
        Piece::Rule(pkg, v) => seq![forms::package_line(pkg, v)],
        Piece::Compact(pkg, t, v) => seq![forms::compact_line(pkg, t, v)],
        Piece::Block(pkg, v, items) => seq![
            match v {
                Some(c) => forms::package_open_line(pkg, c),
                None => forms::open_line(pkg),
            },
        ] + forms::thread_lines(items) + seq![forms::close_line()],
        Piece::App(pkg, t, a, i) => seq![refresh_edit::app_line(pkg, t as int, a, i)],
    }
}

/// The words of a piece are words, and its values are values.
pub open spec fn is_piece(p: Piece) -> bool {
    match p {
        Piece::Note(l) => grammar::is_blank_or_comment(l) && text::is_plain_line(l),
        Piece::Global(k, v) => refresh_lines::is_global_key(k) && forms::is_word(v) && !v.contains(
            ',',
        ),
        Piece::Rule(pkg, v) => is_package(pkg) && is_value(v),
        Piece::Compact(pkg, t, v) => is_package(pkg) && forms::is_word(t) && forms::is_word(v),
        Piece::Block(pkg, v, items) => is_package(pkg) && (v matches Some(c) ==> is_value(c))
            && forms::are_words(items),
        Piece::App(pkg, t, a, i) => is_package(pkg) && t >= 1 && forms::is_rate_text(a)
            && forms::is_rate_text(i),
    }
}

/// The package of a piece.
pub open spec fn package_of(p: Piece) -> Option<Seq<char>> {
    match p {
        Piece::Note(_) => None,
        Piece::Global(_, _) => None,
        Piece::Rule(pkg, _) => Some(pkg),
        Piece::Compact(pkg, _, _) => Some(pkg),
        Piece::Block(pkg, _, _) => Some(pkg),
        Piece::App(pkg, _, _, _) => Some(pkg),
    }
}

/// The lines of some pieces.
pub open spec fn all_lines(ps: Seq<Piece>) -> Seq<Seq<char>>
    decreases ps.len(),
{
    if ps.len() == 0 {
        seq![]
    } else {
        lines_of(ps[0]) + all_lines(ps.skip(1))
    }
}

/// All are pieces.
pub open spec fn are_pieces(ps: Seq<Piece>) -> bool {
    forall|i: int| 0 <= i < ps.len() ==> is_piece(#[trigger] ps[i])
}

/// A piece as one that stays together.
pub open spec fn unit_of(p: Piece) -> UnitView {
    UnitView { pkg: package_of(p), text: text::joined(lines_of(p), seq!['\n']) }
}

/// The kind of the first line of a piece.
proof fn lemma_first_kind(p: Piece)
    requires
        is_piece(p),
    ensures
        lines_of(p).len() > 0,
        match p {
            Piece::Note(_) | Piece::Global(_, _) => {
                let k = layout::kind_of(lines_of(p)[0]);
                !(k is Pkg) && !(k is Block) && lines_of(p).len() == 1
            },
            Piece::Block(pkg, _, _) => layout::kind_of(lines_of(p)[0]) == KindView::Block(pkg),
            _ => layout::kind_of(lines_of(p)[0]) == KindView::Pkg(package_of(p)->0)
                && lines_of(p).len() == 1,
        },
{
    let z = seq!['0'];
    match p {
        Piece::Note(l) => {},
        Piece::Global(k, v) => {
            lemma_kind_of_global(k, v);
        },
        Piece::Rule(pkg, v) => {
            lemma_kind_of_package_line(pkg, v);
        },
        Piece::Compact(pkg, t, v) => {
            lemma_kind_of_compact_line(pkg, t, v);
        },
        Piece::Block(pkg, v, items) => {
            assert(forms::is_word(z));
            match v {
                Some(c) => {
                    lemma_kind_of_opening_lines(pkg, c);
                },
                None => {
                    lemma_kind_of_opening_lines(pkg, z);
                },
            }
            assert(lines_of(p)[0] == match v {
                Some(c) => forms::package_open_line(pkg, c),
                None => forms::open_line(pkg),
            });
        },
        Piece::App(pkg, t, a, i) => {
            lemma_package(pkg);
            forms::lemma_app_words(pkg, t, a, i);
            let l = refresh_edit::app_line(pkg, t as int, a, i);
            lemma_kind_of_package_line(pkg, l.skip(pkg.len() as int + 1));
        },
    }
}

proof fn lemma_kind_of_global(k: Seq<char>, v: Seq<char>)
    requires
        refresh_lines::is_global_key(k),
        forms::is_word(v),
        !v.contains(','),
    ensures
        layout::kind_of(forms::package_line(k, v)) == KindView::Global,
        forms::is_word(k),
{
    refresh_edit::lemma_global_keys();
    reveal_strlit("refresh_timeout");
    reveal_strlit("refresh_active");
    reveal_strlit("refresh_idle");
    reveal_strlit("refresh_");
    assert forall|i: int| 0 <= i < k.len() implies forms::is_plain(#[trigger] k[i]) && k[i] != ',' by {}
    assert(!k.contains(',')) by {
        if k.contains(',') {
            assert(k[k.index_of(',')] == ',');
        }
    }
    forms::lemma_word(k);
    forms::lemma_word(v);
    let s = forms::package_line(k, v);
    let none = Seq::<char>::empty();
    lemma_line(k, seq!['='], v, none);
    assert(s =~= k + seq!['='] + v + none);
    assert forall|c: char| seq!['='].contains(c) implies c == '=' by {}
    assert(s.last() == v.last());
    forms::lemma_clean(s);
    forms::lemma_first_in(k, '=', v);
    assert(k.take(8) =~= "refresh_"@);
}

/// No line of a piece holds a line feed or ends in a carriage return, and of the
/// lines behind the first only the last one of a block holds a `}`.
#[verifier::rlimit(50)]
proof fn lemma_lines_are_plain(p: Piece, j: int)
    requires
        is_piece(p),
        0 <= j < lines_of(p).len(),
    ensures
        text::is_plain_line(lines_of(p)[j]),
        p is Block && 0 < j ==> (lines_of(p)[j].contains('}') <==> j == lines_of(p).len() - 1),
{
    let l = lines_of(p)[j];
    match p {
        Piece::Note(_) => {},
        Piece::Global(k, v) => {
            lemma_kind_of_global(k, v);
            lemma_words_hold_no_feed(k, seq!['='], v, seq![]);
            assert(l =~= k + seq!['='] + v + Seq::<char>::empty());
        },
        Piece::Rule(pkg, v) => {
            lemma_words_hold_no_feed(pkg, seq!['='], v, seq![]);
            assert(l =~= pkg + seq!['='] + v + Seq::<char>::empty());
        },
        Piece::Compact(pkg, t, v) => {
            lemma_words_hold_no_feed(pkg, seq!['{'], t, seq!['}', '='] + v);
            assert(l =~= pkg + seq!['{'] + t + (seq!['}', '='] + v));
            forms::lemma_word(v);
            let end = seq!['}', '='] + v;
            assert forall|i: int| 0 <= i < end.len() implies #[trigger] end[i] != '\n' by {
                if i >= 2 {
                    assert(end[i] == v[i - 2]);
                    assert(forms::is_plain(v[i - 2]));
                }
            }
            assert(end.last() == v.last());
        },
        Piece::Block(pkg, v, items) => {
            let n = items.len();
            if j == 0 {
                match v {
                    Some(c) => {
                        lemma_words_hold_no_feed(pkg, seq!['='], c, seq![' ', '{']);
                    },
                    None => {
                        let o = forms::open_line(pkg);
                        assert forall|i: int| 0 <= i < o.len() implies #[trigger] o[i] != '\n' by {
                            if i < pkg.len() {
                                assert(o[i] == pkg[i]);
                                assert(forms::is_plain(pkg[i]));
                            }
                        }
                        if o.contains('\n') {
                            assert(o[o.index_of('\n')] == '\n');
                        }
                    },
                }
            } else if j <= n {
                let (t, c) = items[j - 1];
                assert(forms::thread_lines(items)[j - 1] == forms::thread_line(t, c));
                assert(l == forms::thread_line(t, c));
                assert(forms::is_word(items[j - 1].0));
                let body = t + seq!['='] + c;
                let pad = seq![' ', ' ', ' ', ' '];
                assert(l =~= pad + body);
                forms::lemma_word(t);
                forms::lemma_word(c);
                assert forall|i: int| 0 <= i < l.len() implies #[trigger] l[i] != '\n' && l[i]
                    != '}' by {
                    if i < 4 {
                    } else if i - 4 < t.len() {
                        assert(l[i] == t[i - 4]);
                        assert(forms::is_plain(t[i - 4]));
                    } else if i - 4 > t.len() {
                        assert(l[i] == c[i - 5 - t.len()]);
                        assert(forms::is_plain(c[i - 5 - t.len()]));
                    }
                }
                assert(l.last() == c.last());
                if l.contains('\n') {
                    assert(l[l.index_of('\n')] == '\n');
                }
                if l.contains('}') {
                    assert(l[l.index_of('}')] == '}');
                }
            } else {
                assert(l == forms::close_line());
                assert(l[0] == '}');
                assert(l.contains('}'));
                if l.contains('\n') {
                    assert(l[l.index_of('\n')] == '\n');
                }
            }
        },
        Piece::App(pkg, t, a, i) => {
            lemma_package(pkg);
            forms::lemma_app_words(pkg, t, a, i);
            let v = l.skip(pkg.len() as int + 1);
            lemma_words_hold_no_feed(pkg, seq!['='], v, seq![]);
            assert(l =~= pkg + seq!['='] + v + Seq::<char>::empty());
        },
    }
}

proof fn lemma_words_hold_no_feed(a: Seq<char>, mid: Seq<char>, b: Seq<char>, end: Seq<char>)
    requires
        forms::is_word(a),
        forms::is_word(b),
        mid == seq!['='] || mid == seq!['{'],
    ensures
        (forall|i: int| 0 <= i < end.len() ==> #[trigger] end[i] != '\n') && (end.len() > 0
            ==> end.last() != '\r') ==> text::is_plain_line(a + mid + b + end),
{
    let s = a + mid + b + end;
    forms::lemma_word(b);
    if (forall|i: int| 0 <= i < end.len() ==> #[trigger] end[i] != '\n') && (end.len() > 0
        ==> end.last() != '\r') {
        assert forall|i: int| 0 <= i < s.len() implies #[trigger] s[i] != '\n' by {
            let n1 = a.len() as int;
            let n2 = n1 + 1 + b.len();
            if i < n1 {
                assert(s[i] == a[i]);
                assert(forms::is_plain(a[i]));
            } else if n1 < i < n2 {
                assert(s[i] == b[i - n1 - 1]);
                assert(forms::is_plain(b[i - n1 - 1]));
            } else if i >= n2 {
                assert(s[i] == end[i - n2]);
            }
        }
        if s.contains('\n') {
            assert(s[s.index_of('\n')] == '\n');
        }
        if end.len() > 0 {
            assert(s.last() == end.last());
        } else {
            assert(s.last() == b.last());
        }
    }
}

/// The file is cut at the ends of its pieces.
#[verifier::rlimit(50)]
proof fn lemma_units(before: Seq<Seq<char>>, ps: Seq<Piece>)
    requires
        are_pieces(ps),
    ensures
        layout::units(before + all_lines(ps), before.len() as int) == ps.map_values(
            |p: Piece| unit_of(p),
        ),
    decreases ps.len(),
{
    let f = |p: Piece| unit_of(p);
    let lines = before + all_lines(ps);
    let i = before.len() as int;
    if ps.len() == 0 {
        assert(ps.map_values(f) =~= Seq::<UnitView>::empty());
    } else {
        let p = ps[0];
        let rest = ps.skip(1);
        let ls = lines_of(p);
        assert(is_piece(ps[0]));
        assert(are_pieces(rest)) by {
            assert forall|k: int| 0 <= k < rest.len() implies is_piece(#[trigger] rest[k]) by {
                assert(rest[k] == ps[k + 1]);
            }
        }
        let mid = before + ls;
        assert(lines =~= mid + all_lines(rest));
        lemma_units(mid, rest);
        lemma_first_kind(p);
        assert(lines[i] == ls[0]);
        let e = i + ls.len();
        if p is Block {
            assert forall|j: int| i + 1 <= j < e - 1 implies !(#[trigger] lines[j]).contains('}') by {
                assert(lines[j] == ls[j - i]);
                lemma_lines_are_plain(p, j - i);
            }
            assert(ls.len() >= 2);
            lemma_lines_are_plain(p, ls.len() - 1);
            assert(lines[e - 1] == ls[ls.len() - 1]);
            layout::lemma_block_end(lines, i + 1, e);
            assert(lines.subrange(i, e) =~= ls);
        } else {
            assert(ls =~= seq![ls[0]]);
            assert(text::joined(ls, seq!['\n']) == ls[0]);
        }
        assert(layout::units(lines, i) == seq![unit_of(p)] + layout::units(lines, e));
        assert(ps.map_values(f) =~= seq![unit_of(p)] + rest.map_values(f));
    }
}

/// The reading after some lines.
pub open spec fn read_all(st: LoadView, lines: Seq<Seq<char>>, topo: CpuTopology) -> LoadView {
    forms::read_on(st, lines, lines.len(), topo)
}

proof fn lemma_read_concat(
    st: LoadView,
    a: Seq<Seq<char>>,
    b: Seq<Seq<char>>,
    n: nat,
    topo: CpuTopology,
)
    requires
        n <= b.len(),
    ensures
        forms::read_on(st, a + b, a.len() + n, topo) == forms::read_on(
            read_all(st, a, topo),
            b,
            n,
            topo,
        ),
    decreases n,
{
    if n == 0 {
        lemma_read_prefix(st, a, b, a.len(), topo);
    } else {
        lemma_read_concat(st, a, b, (n - 1) as nat, topo);
        assert((a + b)[a.len() + n - 1] == b[n - 1]);
    }
}

proof fn lemma_read_prefix(
    st: LoadView,
    a: Seq<Seq<char>>,
    b: Seq<Seq<char>>,
    n: nat,
    topo: CpuTopology,
)
    requires
        n <= a.len(),
    ensures
        forms::read_on(st, a + b, n, topo) == forms::read_on(st, a, n, topo),
    decreases n,
{
    if n > 0 {
        lemma_read_prefix(st, a, b, (n - 1) as nat, topo);
        assert((a + b)[n - 1] == a[n - 1]);
    }
}

/// A reading that has not begun.
pub open spec fn blank() -> LoadView {
    LoadView {
        rules: seq![],
        fails: 0,
        globals: (0, 0, 0),
        apps: Map::empty(),
        cur: seq![],
        pending: seq![],
        in_block: false,
    }
}

/// What some lines add when they are read between blocks: rules and failures.
pub open spec fn added(lines: Seq<Seq<char>>, topo: CpuTopology) -> (Seq<RuleView>, nat) {
    let st = read_all(blank(), lines, topo);
    (st.rules, st.fails)
}

/// Lines that add the same wherever they stand between blocks, and leave no
/// block open behind them.
#[verifier::opaque]
pub open spec fn adds_the_same(lines: Seq<Seq<char>>, topo: CpuTopology) -> bool {
    forall|st: LoadView| #[trigger] forms::is_between(st) ==> adds_at(st, lines, topo)
}

/// The lines add what they add to a reading that has not begun.
pub open spec fn adds_at(st: LoadView, lines: Seq<Seq<char>>, topo: CpuTopology) -> bool {
    let end = read_all(st, lines, topo);
    &&& forms::is_between(end)
    &&& end.rules == st.rules + added(lines, topo).0
    &&& end.fails == st.fails + added(lines, topo).1
}

proof fn lemma_adds(st: LoadView, lines: Seq<Seq<char>>, topo: CpuTopology)
    requires
        adds_the_same(lines, topo),
        forms::is_between(st),
    ensures
        forms::is_between(read_all(st, lines, topo)),
        read_all(st, lines, topo).rules == st.rules + added(lines, topo).0,
        read_all(st, lines, topo).fails == st.fails + added(lines, topo).1,
{
    reveal(adds_the_same);
}

/// A line that is read as one rule, or as none, wherever it stands.
#[verifier::opaque]
spec fn reads_as(l: Seq<char>, rule: Option<Option<RuleView>>, topo: CpuTopology) -> bool {
    forall|st: LoadView| #[trigger] forms::is_between(st) ==> reads_as_at(st, l, rule, topo)
}

/// The line is read so in this state.
spec fn reads_as_at(
    st: LoadView,
    l: Seq<char>,
    rule: Option<Option<RuleView>>,
    topo: CpuTopology,
) -> bool {
    let end = config::load_step(st, l, topo);
    &&& forms::is_between(end)
    &&& match rule {
        Some(r) => end.rules == forms::taken(st, r).rules && end.fails == forms::taken(
            st,
            r,
        ).fails,
        None => end.rules == st.rules && end.fails == st.fails,
    }
}

proof fn lemma_read_one(st: LoadView, l: Seq<char>, topo: CpuTopology)
    ensures
        read_all(st, seq![l], topo) == config::load_step(st, l, topo),
{
    let ls = seq![l];
    assert(ls[0] == l);
    assert(forms::read_on(st, ls, 0, topo) == st);
    assert(forms::read_on(st, ls, 1, topo) == config::load_step(
        forms::read_on(st, ls, 0, topo),
        ls[0],
        topo,
    ));
}

proof fn lemma_one_line_at(
    st: LoadView,
    l: Seq<char>,
    rule: Option<Option<RuleView>>,
    topo: CpuTopology,
)
    requires
        forms::is_between(st),
        reads_as_at(st, l, rule, topo),
        reads_as_at(blank(), l, rule, topo),
    ensures
        adds_at(st, seq![l], topo),
{
    lemma_read_one(st, l, topo);
    lemma_read_one(blank(), l, topo);
    let end = read_all(st, seq![l], topo);
    assert(end.rules =~= st.rules + added(seq![l], topo).0);
}

proof fn lemma_one_line(l: Seq<char>, rule: Option<Option<RuleView>>, topo: CpuTopology)
    requires
        reads_as(l, rule, topo),
    ensures
        adds_the_same(seq![l], topo),
{
    reveal(adds_the_same);
    reveal(reads_as);
    assert(forms::is_between(blank()));
    assert forall|st: LoadView| #[trigger] forms::is_between(st) implies adds_at(
        st,
        seq![l],
        topo,
    ) by {
        lemma_one_line_at(st, l, rule, topo);
    }
}

/// Every piece adds the same wherever it stands.
proof fn lemma_pieces_add_the_same(p: Piece, topo: CpuTopology)
    requires
        is_piece(p),
    ensures
        adds_the_same(lines_of(p), topo),
{
    match p {
        Piece::Note(l) => {
            assert(reads_as(l, None, topo)) by {
                reveal(reads_as);
                text::trimming_twice(l);
            }
            lemma_one_line(l, None, topo);
        },
        Piece::Global(k, v) => {
            let l = forms::package_line(k, v);
            lemma_kind_of_global(k, v);
            forms::lemma_outer_rule(k, v);
            assert(reads_as(l, None, topo)) by {
                reveal(reads_as);
            }
            lemma_one_line(l, None, topo);
        },
        Piece::Rule(pkg, v) => {
            lemma_package(pkg);
            let r = config::rule_for(topo, pkg, seq![], v);
            let l = forms::package_line(pkg, v);
            assert(reads_as(l, Some(r), topo)) by {
                reveal(reads_as);
                assert forall|st: LoadView| #[trigger] forms::is_between(st) implies reads_as_at(
                    st,
                    l,
                    Some(r),
                    topo,
                ) by {
                    forms::package_lines_set_rules(st, pkg, v, topo);
                }
            }
            lemma_one_line(l, Some(r), topo);
        },
        Piece::Compact(pkg, t, v) => {
            let r = config::rule_for(topo, pkg, t, v);
            let l = forms::compact_line(pkg, t, v);
            assert(reads_as(l, Some(r), topo)) by {
                reveal(reads_as);
                assert forall|st: LoadView| #[trigger] forms::is_between(st) implies reads_as_at(
                    st,
                    l,
                    Some(r),
                    topo,
                ) by {
                    forms::compact_lines_set_rules(st, pkg, t, v, topo);
                }
            }
            lemma_one_line(l, Some(r), topo);
        },
        Piece::Block(pkg, v, items) => {
            lemma_package(pkg);
            let ls = lines_of(p);
            reveal(adds_the_same);
            assert forall|st: LoadView| #[trigger] forms::is_between(st) implies adds_at(
                st,
                ls,
                topo,
            ) by {
                lemma_block_at(st, pkg, v, items, topo);
            }
        },
        Piece::App(pkg, t, a, i) => {
            lemma_package(pkg);
            let l = refresh_edit::app_line(pkg, t as int, a, i);
            assert(reads_as(l, None, topo)) by {
                reveal(reads_as);
                assert forall|st: LoadView| #[trigger] forms::is_between(st) implies reads_as_at(
                    st,
                    l,
                    None,
                    topo,
                ) by {
                    forms::application_lines_set_rates(st, pkg, t, a, i, topo);
                }
            }
            lemma_one_line(l, None, topo);
        },
    }
}

proof fn lemma_block_at(
    st: LoadView,
    pkg: Seq<char>,
    v: Option<Seq<char>>,
    items: Seq<(Seq<char>, Seq<char>)>,
    topo: CpuTopology,
)
    requires
        forms::is_between(st),
        is_piece(Piece::Block(pkg, v, items)),
    ensures
        adds_at(st, lines_of(Piece::Block(pkg, v, items)), topo),
{
    let ls = lines_of(Piece::Block(pkg, v, items));
    assert(forms::is_between(blank()));
    lemma_block(st, pkg, v, items, topo);
    lemma_block(blank(), pkg, v, items, topo);
    let a = head_outs(pkg, v, topo) + item_outs(pkg, items, items.len(), topo);
    lemma_outs(st, a);
    lemma_outs(blank(), a);
    assert(read_all(st, ls, topo).rules =~= st.rules + added(ls, topo).0);
}

/// The reading with the results of several lines.
spec fn taken_all(st: LoadView, outs: Seq<Option<RuleView>>) -> LoadView
    decreases outs.len(),
{
    if outs.len() == 0 {
        st
    } else {
        forms::taken(taken_all(st, outs.drop_last()), outs.last())
    }
}

spec fn head_outs(pkg: Seq<char>, v: Option<Seq<char>>, topo: CpuTopology) -> Seq<Option<RuleView>> {
    match v {
        Some(c) => seq![config::rule_for(topo, pkg, seq![], c)],
        None => seq![],
    }
}

spec fn item_outs(
    pkg: Seq<char>,
    items: Seq<(Seq<char>, Seq<char>)>,
    n: nat,
    topo: CpuTopology,
) -> Seq<Option<RuleView>>
    decreases n,
{
    if n == 0 {
        seq![]
    } else {
        item_outs(pkg, items, (n - 1) as nat, topo).push(
            config::rule_for(topo, pkg, items[n - 1].0, items[n - 1].1),
        )
    }
}

proof fn lemma_outs(st: LoadView, outs: Seq<Option<RuleView>>)
    requires
        forms::is_between(st),
    ensures
        ({
            let end = taken_all(st, outs);
            let base = taken_all(blank(), outs);
            &&& end.rules == st.rules + base.rules
            &&& end.fails == st.fails + base.fails
            &&& end.in_block == st.in_block && end.cur == st.cur && end.pending == st.pending
        }),
    decreases outs.len(),
{
    if outs.len() > 0 {
        lemma_outs(st, outs.drop_last());
        let end = taken_all(st, outs);
        let base = taken_all(blank(), outs);
        assert(end.rules =~= st.rules + base.rules);
    } else {
        assert(st.rules + blank().rules =~= st.rules);
    }
}

proof fn lemma_block(
    st: LoadView,
    pkg: Seq<char>,
    v: Option<Seq<char>>,
    items: Seq<(Seq<char>, Seq<char>)>,
    topo: CpuTopology,
)
    requires
        forms::is_between(st),
        is_piece(Piece::Block(pkg, v, items)),
    ensures
        ({
            let end = read_all(st, lines_of(Piece::Block(pkg, v, items)), topo);
            let want = taken_all(
                st,
                head_outs(pkg, v, topo) + item_outs(pkg, items, items.len(), topo),
            );
            forms::is_between(end) && end.rules == want.rules && end.fails == want.fails
        }),
{
    lemma_package(pkg);
    let ls = lines_of(Piece::Block(pkg, v, items));
    let n = items.len();
    lemma_block_items(st, pkg, v, items, n, topo);
    let inside = forms::read_on(st, ls, n + 1, topo);
    let z = seq!['0'];
    assert(forms::is_word(z));
    reveal_strlit("refresh_timeout");
    reveal_strlit("refresh_active");
    reveal_strlit("refresh_idle");
    assert(!refresh_lines::is_global_key(z)) by {
        assert(z.len() == 1);
    }
    forms::block_lines_set_rules(inside, z, z, topo);
    assert(ls[(n + 1) as int] == forms::close_line());
    assert(read_all(st, ls, topo) == config::load_step(inside, ls[(n + 1) as int], topo));
}

#[verifier::rlimit(50)]
proof fn lemma_block_items(
    st: LoadView,
    pkg: Seq<char>,
    v: Option<Seq<char>>,
    items: Seq<(Seq<char>, Seq<char>)>,
    n: nat,
    topo: CpuTopology,
)
    requires
        forms::is_between(st),
        is_piece(Piece::Block(pkg, v, items)),
        n <= items.len(),
    ensures
        ({
            let inside = forms::read_on(st, lines_of(Piece::Block(pkg, v, items)), n + 1, topo);
            let want = taken_all(st, head_outs(pkg, v, topo) + item_outs(pkg, items, n, topo));
            &&& inside.rules == want.rules && inside.fails == want.fails
            &&& inside.in_block && inside.cur == pkg && inside.pending == st.pending
        }),
    decreases n,
{
    let ls = lines_of(Piece::Block(pkg, v, items));
    let h = head_outs(pkg, v, topo);
    lemma_package(pkg);
    if n == 0 {
        let z = seq!['0'];
        assert(forms::is_word(z));
        reveal_strlit("refresh-");
        assert(!text::starts(z, "refresh-"@)) by {
            assert(z.len() == 1);
        }
        reveal_with_fuel(forms::read_on, 2);
        reveal_with_fuel(taken_all, 2);
        assert(item_outs(pkg, items, 0, topo) =~= Seq::<Option<RuleView>>::empty());
        assert(h + item_outs(pkg, items, 0, topo) =~= h);
        match v {
            Some(c) => {
                forms::opening_lines_open_blocks(st, pkg, c, topo);
                assert(h.drop_last() =~= Seq::<Option<RuleView>>::empty());
                assert(ls[0] == forms::package_open_line(pkg, c));
            },
            None => {
                forms::opening_lines_open_blocks(st, pkg, z, topo);
                assert(ls[0] == forms::open_line(pkg));
            },
        }
    } else {
        let m = (n - 1) as nat;
        lemma_block_items(st, pkg, v, items, m, topo);
        let inside = forms::read_on(st, ls, n, topo);
        assert(forms::is_word(items[n - 1].0));
        forms::block_lines_set_rules(inside, items[n - 1].0, items[n - 1].1, topo);
        assert(forms::thread_lines(items)[n - 1] == forms::thread_line(
            items[n - 1].0,
            items[n - 1].1,
        ));
        assert(ls[n as int] == forms::thread_line(items[n - 1].0, items[n - 1].1));
        let outs = h + item_outs(pkg, items, n, topo);
        assert(outs.drop_last() =~= h + item_outs(pkg, items, m, topo));
        assert(outs.last() == config::rule_for(topo, pkg, items[n - 1].0, items[n - 1].1));
    }
}

/// The lines of a text.
pub open spec fn cut_up(t: Seq<char>) -> Seq<Seq<char>> {
    text::pieces(t, '\n')
}

/// The lines of some texts, one behind the other.
pub open spec fn lines_in(texts: Seq<Seq<char>>) -> Seq<Seq<char>>
    decreases texts.len(),
{
    if texts.len() == 0 {
        seq![]
    } else {
        lines_in(texts.drop_last()) + cut_up(texts.last())
    }
}

proof fn lemma_terminated_concat(a: Seq<Seq<char>>, b: Seq<Seq<char>>)
    ensures
        text::terminated(a + b) == text::terminated(a) + text::terminated(b),
    decreases b.len(),
{
    if b.len() == 0 {
        assert(a + b =~= a);
        assert(text::terminated(a) + text::terminated(b) =~= text::terminated(a));
    } else {
        let init = b.drop_last();
        lemma_terminated_concat(a, init);
        assert(a + b =~= (a + init).push(b.last()));
        text::lemma_terminated_push(a + init, b.last());
        assert(init.push(b.last()) =~= b);
        text::lemma_terminated_push(init, b.last());
        assert(text::terminated(a + b) =~= text::terminated(a) + text::terminated(b));
    }
}

/// Joined texts have the lines of all of them.
proof fn lemma_joined_texts(texts: Seq<Seq<char>>)
    requires
        texts.len() > 0,
    ensures
        text::joined(texts, seq!['\n']) + seq!['\n'] == text::terminated(lines_in(texts)),
    decreases texts.len(),
{
    let init = texts.drop_last();
    let t = texts.last();
    text::join_undoes_split(t, '\n');
    text::lemma_joined_terminated(cut_up(t));
    assert(text::terminated(cut_up(t)) == t + seq!['\n']);
    lemma_terminated_concat(lines_in(init), cut_up(t));
    if texts.len() == 1 {
        assert(lines_in(init) =~= Seq::<Seq<char>>::empty());
        assert(text::terminated(lines_in(init)) =~= Seq::<char>::empty());
        assert(text::joined(texts, seq!['\n']) + seq!['\n'] =~= text::terminated(lines_in(texts)));
    } else {
        lemma_joined_texts(init);
        assert(text::joined(texts, seq!['\n']) + seq!['\n'] =~= text::terminated(lines_in(texts)));
    }
}

/// The rules that some texts add.
#[verifier::opaque]
spec fn rules_in(texts: Seq<Seq<char>>, topo: CpuTopology) -> Multiset<RuleView> {
    texts.fold_right(
        |t: Seq<char>, m: Multiset<RuleView>| added(cut_up(t), topo).0.to_multiset().add(m),
        Multiset::empty(),
    )
}

/// The failures that some texts add.
#[verifier::opaque]
spec fn fails_in(texts: Seq<Seq<char>>, topo: CpuTopology) -> int {
    texts.fold_right(|t: Seq<char>, n: int| added(cut_up(t), topo).1 + n, 0int)
}

proof fn lemma_same_pieces_same_rules(a: Seq<Seq<char>>, b: Seq<Seq<char>>, topo: CpuTopology)
    requires
        a.to_multiset() == b.to_multiset(),
    ensures
        rules_in(a, topo) == rules_in(b, topo),
        fails_in(a, topo) == fails_in(b, topo),
{
    reveal(rules_in);
    reveal(fails_in);
    let f = |t: Seq<char>, m: Multiset<RuleView>| added(cut_up(t), topo).0.to_multiset().add(m);
    let g = |t: Seq<char>, n: int| added(cut_up(t), topo).1 + n;
    assert(vstd::seq_lib::commutative_foldr(f)) by {
        assert forall|x: Seq<char>, y: Seq<char>, v: Multiset<RuleView>| #[trigger]
            f(x, f(y, v)) == f(y, f(x, v)) by {
            assert(f(x, f(y, v)) =~= f(y, f(x, v)));
        }
    }
    assert(vstd::seq_lib::commutative_foldr(g));
    vstd::seq_lib::lemma_fold_right_permutation(a, b, f, Multiset::empty());
    vstd::seq_lib::lemma_fold_right_permutation(a, b, g, 0int);
}

/// Reading texts, each of which adds the same wherever it stands, adds what all
/// of them add.
#[verifier::rlimit(50)]
proof fn lemma_read_texts(st: LoadView, texts: Seq<Seq<char>>, topo: CpuTopology)
    requires
        forms::is_between(st),
        forall|i: int| 0 <= i < texts.len() ==> adds_the_same(cut_up(#[trigger] texts[i]), topo),
    ensures
        ({
            let end = read_all(st, lines_in(texts), topo);
            &&& forms::is_between(end)
            &&& end.rules.to_multiset() == st.rules.to_multiset().add(rules_in(texts, topo))
            &&& end.fails == st.fails + fails_in(texts, topo)
        }),
    decreases texts.len(),
{
    if texts.len() == 0 {
        reveal(rules_in);
        reveal(fails_in);
        assert(st.rules.to_multiset() =~= st.rules.to_multiset().add(rules_in(texts, topo)));
    } else {
        let init = texts.drop_last();
        let t = texts.last();
        assert forall|i: int| 0 <= i < init.len() implies adds_the_same(
            cut_up(#[trigger] init[i]),
            topo,
        ) by {
            assert(init[i] == texts[i]);
        }
        lemma_read_texts(st, init, topo);
        let mid = read_all(st, lines_in(init), topo);
        lemma_read_concat(st, lines_in(init), cut_up(t), cut_up(t).len(), topo);
        let end = read_all(st, lines_in(texts), topo);
        assert(end == read_all(mid, cut_up(t), topo));
        assert(adds_the_same(cut_up(texts[texts.len() - 1]), topo));
        lemma_adds(mid, cut_up(t), topo);
        let more = added(cut_up(t), topo);
        vstd::seq_lib::lemma_multiset_commutative(mid.rules, more.0);
        lemma_fold_last(init, t, topo);
        assert(init.push(t) =~= texts);
        assert(end.rules.to_multiset() =~= st.rules.to_multiset().add(rules_in(texts, topo)));
    }
}

proof fn lemma_fold_last(init: Seq<Seq<char>>, t: Seq<char>, topo: CpuTopology)
    ensures
        rules_in(init.push(t), topo) == rules_in(init, topo).add(
            added(cut_up(t), topo).0.to_multiset(),
        ),
        fails_in(init.push(t), topo) == fails_in(init, topo) + added(cut_up(t), topo).1,
{
    reveal(rules_in);
    reveal(fails_in);
    let front = seq![t] + init;
    let back = init.push(t);
    back.to_multiset_ensures();
    vstd::seq_lib::lemma_multiset_commutative(seq![t], init);
    vstd::seq_lib::lemma_multiset_commutative(init, seq![t]);
    assert(back =~= init + seq![t]);
    assert(front.to_multiset() =~= back.to_multiset());
    lemma_same_pieces_same_rules(front, back, topo);
    let f = |x: Seq<char>, m: Multiset<RuleView>| added(cut_up(x), topo).0.to_multiset().add(m);
    let g = |x: Seq<char>, n: int| added(cut_up(x), topo).1 + n;
    lemma_fold_front(init, t, f, Multiset::empty());
    lemma_fold_front(init, t, g, 0int);
    assert(rules_in(back, topo) =~= rules_in(init, topo).add(
        added(cut_up(t), topo).0.to_multiset(),
    ));
}

proof fn lemma_fold_front<B>(init: Seq<Seq<char>>, t: Seq<char>, f: spec_fn(Seq<char>, B) -> B, v: B)
    ensures
        (seq![t] + init).fold_right(f, v) == f(t, init.fold_right(f, v)),
    decreases init.len(),
{
    let all = seq![t] + init;
    reveal_with_fuel(Seq::fold_right, 2);
    if init.len() == 0 {
        assert(all.drop_last() =~= Seq::<Seq<char>>::empty());
        assert(all.last() == t);
    } else {
        lemma_fold_front(init.drop_last(), t, f, f(init.last(), v));
        assert(all.drop_last() =~= seq![t] + init.drop_last());
        assert(all.last() == init.last());
    }
}

proof fn lemma_all_lines(ps: Seq<Piece>, j: int)
    requires
        are_pieces(ps),
        0 <= j < all_lines(ps).len(),
    ensures
        text::is_plain_line(all_lines(ps)[j]),
    decreases ps.len(),
{
    if ps.len() > 0 {
        let p = ps[0];
        let rest = ps.skip(1);
        assert(is_piece(ps[0]));
        if j < lines_of(p).len() {
            lemma_lines_are_plain(p, j);
        } else {
            assert forall|k: int| 0 <= k < rest.len() implies is_piece(#[trigger] rest[k]) by {
                assert(rest[k] == ps[k + 1]);
            }
            lemma_all_lines(rest, j - lines_of(p).len());
        }
    }
}

/// The text of a piece has the lines of the piece.
proof fn lemma_piece_text(p: Piece)
    requires
        is_piece(p),
    ensures
        cut_up(unit_of(p).text) == lines_of(p),
{
    lemma_first_kind(p);
    assert forall|i: int| 0 <= i < lines_of(p).len() implies !(#[trigger] lines_of(p)[i]).contains(
        '\n',
    ) by {
        lemma_lines_are_plain(p, i);
    }
    text::split_undoes_join(lines_of(p), '\n');
}

proof fn lemma_all_lines_are_texts(ps: Seq<Piece>)
    requires
        are_pieces(ps),
    ensures
        all_lines(ps) == lines_in(ps.map_values(|p: Piece| unit_of(p).text)),
    decreases ps.len(),
{
    let f = |p: Piece| unit_of(p).text;
    if ps.len() == 0 {
        assert(ps.map_values(f) =~= Seq::<Seq<char>>::empty());
    } else {
        let init = ps.drop_last();
        assert forall|k: int| 0 <= k < init.len() implies is_piece(#[trigger] init[k]) by {
            assert(init[k] == ps[k]);
        }
        lemma_all_lines_are_texts(init);
        lemma_all_lines_push(init, ps.last());
        assert(init.push(ps.last()) =~= ps);
        assert(ps.map_values(f).drop_last() =~= init.map_values(f));
        assert(is_piece(ps[ps.len() - 1]));
        lemma_piece_text(ps.last());
    }
}

proof fn lemma_all_lines_push(ps: Seq<Piece>, p: Piece)
    ensures
        all_lines(ps.push(p)) == all_lines(ps) + lines_of(p),
    decreases ps.len(),
{
    if ps.len() == 0 {
        assert(ps.push(p).skip(1) =~= ps);
        assert(all_lines(ps.push(p)) =~= all_lines(ps) + lines_of(p));
    } else {
        lemma_all_lines_push(ps.skip(1), p);
        assert(ps.push(p).skip(1) =~= ps.skip(1).push(p));
        assert(all_lines(ps.push(p)) =~= all_lines(ps) + lines_of(p));
    }
}

/// A tidy file has the rules of the one that it was made of, each as often, and
/// as many lines that make no sense: blocks stay in one piece, and every line
/// goes with its package.
#[verifier::rlimit(50)]
pub proof fn tidy_files_have_the_same_rules(
    ps: Seq<Piece>,
    order: Seq<Seq<char>>,
    topo: CpuTopology,
)
    requires
        ps.len() > 0,
        are_pieces(ps),
        layout::is_order_of(order, layout::units(all_lines(ps), 0)),
    ensures
        ({
            let content = text::terminated(all_lines(ps));
            let tidy = layout::tidy_text(layout::units(text::line_seq(content), 0), order);
            let a = config::load_all(content, topo);
            let b = config::load_all(tidy, topo);
            &&& text::line_seq(content) == all_lines(ps)
            &&& a.rules.to_multiset() == b.rules.to_multiset()
            &&& a.fails == b.fails
        }),
{
    let f = |p: Piece| unit_of(p);
    let h = |p: Piece| unit_of(p).text;
    let lines = all_lines(ps);
    assert forall|j: int| 0 <= j < lines.len() implies text::is_plain_line(#[trigger] lines[j]) by {
        lemma_all_lines(ps, j);
    }
    text::written_lines_read_back(lines);
    let none = Seq::<Seq<char>>::empty();
    lemma_units(none, ps);
    assert(none + lines =~= lines);
    let us = layout::units(lines, 0);
    assert(us == ps.map_values(f));
    let texts = ps.map_values(h);
    assert(layout::unit_texts(us) =~= texts);
    layout::tidying_keeps_every_piece(us, order);
    let arranged = layout::tidy(us, order);
    assert(arranged.to_multiset() == texts.to_multiset());
    arranged.to_multiset_ensures();
    texts.to_multiset_ensures();
    assert(arranged.len() == texts.len());
    assert forall|i: int| 0 <= i < texts.len() implies adds_the_same(cut_up(#[trigger] texts[i]), topo)
        && (forall|j: int|
        0 <= j < cut_up(texts[i]).len() ==> text::is_plain_line(#[trigger] cut_up(texts[i])[j])) by {
        assert(is_piece(ps[i]));
        lemma_piece_text(ps[i]);
        lemma_pieces_add_the_same(ps[i], topo);
        assert forall|j: int| 0 <= j < cut_up(texts[i]).len() implies text::is_plain_line(
            #[trigger] cut_up(texts[i])[j],
        ) by {
            lemma_lines_are_plain(ps[i], j);
        }
    }
    assert forall|i: int| 0 <= i < arranged.len() implies adds_the_same(
        cut_up(#[trigger] arranged[i]),
        topo,
    ) && (forall|j: int|
        0 <= j < cut_up(arranged[i]).len() ==> text::is_plain_line(
            #[trigger] cut_up(arranged[i])[j],
        )) by {
        assert(arranged.contains(arranged[i]));
        assert(texts.to_multiset().count(arranged[i]) > 0);
        assert(texts.contains(arranged[i]));
        let k = texts.index_of(arranged[i]);
        assert(texts[k] == arranged[i]);
    }
    let st = LoadView::start();
    assert(forms::is_between(st));
    lemma_all_lines_are_texts(ps);
    lemma_read_texts(st, texts, topo);
    lemma_read_texts(st, arranged, topo);
    lemma_same_pieces_same_rules(texts, arranged, topo);
    lemma_joined_texts(arranged);
    let out = lines_in(arranged);
    assert forall|j: int| 0 <= j < out.len() implies text::is_plain_line(#[trigger] out[j]) by {
        lemma_lines_in(arranged, j);
    }
    text::written_lines_read_back(out);
    forms::lemma_read_on_start(lines, lines.len(), topo);
    forms::lemma_read_on_start(out, out.len(), topo);
}

proof fn lemma_lines_in(texts: Seq<Seq<char>>, j: int)
    requires
        forall|i: int|
            #![trigger texts[i]]
            0 <= i < texts.len() ==> forall|k: int|
                0 <= k < cut_up(texts[i]).len() ==> text::is_plain_line(
                    #[trigger] cut_up(texts[i])[k],
                ),
        0 <= j < lines_in(texts).len(),
    ensures
        text::is_plain_line(lines_in(texts)[j]),
    decreases texts.len(),
{
    if texts.len() > 0 {
        let init = texts.drop_last();
        let n = lines_in(init).len();
        if j < n {
            assert forall|i: int| #![trigger init[i]] 0 <= i < init.len() implies (forall|k: int|
                0 <= k < cut_up(init[i]).len() ==> text::is_plain_line(
                    #[trigger] cut_up(init[i])[k],
                )) by {
                assert(init[i] == texts[i]);
            }
            lemma_lines_in(init, j);
        } else {
            let i = texts.len() - 1;
            assert(texts[i] == texts.last());
            assert(lines_in(texts)[j] == cut_up(texts[i])[j - n]);
        }
    }
}

/// A file is left alone if and only if its packages are those in force;
/// otherwise what comes of it has the same rules and as many lines that make no
/// sense.
pub proof fn tidying_keeps_the_rules(
    ps: Seq<Piece>,
    current: Set<Seq<char>>,
    r: Option<Seq<char>>,
    topo: CpuTopology,
)
    requires
        ps.len() > 0,
        are_pieces(ps),
        layout::is_tidied(text::terminated(all_lines(ps)), current, r),
    ensures
        r is None <==> (forall|pkg: Seq<char>|
            current.contains(pkg) <==> exists|i: int|
                0 <= i < ps.len() && package_of(#[trigger] ps[i]) == Some(pkg)),
        r matches Some(t) ==> {
            let a = config::load_all(text::terminated(all_lines(ps)), topo);
            let b = config::load_all(t, topo);
            a.rules.to_multiset() == b.rules.to_multiset() && a.fails == b.fails
        },
{
    let content = text::terminated(all_lines(ps));
    let lines = all_lines(ps);
    assert forall|j: int| 0 <= j < lines.len() implies text::is_plain_line(#[trigger] lines[j]) by {
        lemma_all_lines(ps, j);
    }
    text::written_lines_read_back(lines);
    let us = layout::units(lines, 0);
    assert forall|pkg: Seq<char>|
        layout::unit_pkgs(us).contains(pkg) <==> exists|i: int|
            0 <= i < ps.len() && package_of(#[trigger] ps[i]) == Some(pkg) by {
        packages_of_files(ps, pkg);
    }
    if r is None {
        assert(layout::unit_pkgs(us) == current);
    } else {
        if forall|pkg: Seq<char>|
            current.contains(pkg) <==> exists|i: int|
                0 <= i < ps.len() && package_of(#[trigger] ps[i]) == Some(pkg) {
            assert(layout::unit_pkgs(us) =~= current);
        }
        let order = choose|order: Seq<Seq<char>>|
            layout::is_order_of(order, us) && r->0 == #[trigger] layout::tidy_text(us, order);
        tidy_files_have_the_same_rules(ps, order, topo);
    }
}

/// A tidy file has the lines that belong to no package first, as they stood, and
/// then the packages by name. The lines and blocks of a package come in the
/// order in which they stood, its rules before its refresh rates.
pub proof fn tidy_files_are_in_order(
    us: Seq<UnitView>,
    order: Seq<Seq<char>>,
    pkg: Seq<char>,
)
    ensures
        layout::tidy(us, seq![]) == texts_where(us, |u: UnitView| u.pkg is None),
        layout::tidy(us, order.push(pkg)) == layout::tidy(us, order) + texts_where(
            us,
            |u: UnitView|
                u.pkg == Some(pkg) && !text::holds(text::trimmed(u.text), "=refresh-"@),
        ) + texts_where(
            us,
            |u: UnitView| u.pkg == Some(pkg) && text::holds(text::trimmed(u.text), "=refresh-"@),
        ),
{
    lemma_picked(us, None, None, |u: UnitView| u.pkg is None);
    lemma_picked(
        us,
        Some(pkg),
        Some(false),
        |u: UnitView| u.pkg == Some(pkg) && !text::holds(text::trimmed(u.text), "=refresh-"@),
    );
    lemma_picked(
        us,
        Some(pkg),
        Some(true),
        |u: UnitView| u.pkg == Some(pkg) && text::holds(text::trimmed(u.text), "=refresh-"@),
    );
    assert(layout::groups(us, seq![]) =~= Seq::<Seq<char>>::empty());
    assert(layout::tidy(us, seq![]) =~= texts_where(us, |u: UnitView| u.pkg is None));
    assert(order.push(pkg).drop_last() =~= order);
    assert(layout::tidy(us, order.push(pkg)) =~= layout::tidy(us, order) + layout::group(us, pkg));
    let a = texts_where(
        us,
        |u: UnitView| u.pkg == Some(pkg) && !text::holds(text::trimmed(u.text), "=refresh-"@),
    );
    let b = texts_where(
        us,
        |u: UnitView| u.pkg == Some(pkg) && text::holds(text::trimmed(u.text), "=refresh-"@),
    );
    assert(layout::tidy(us, order) + (a + b) =~= layout::tidy(us, order) + a + b);
}

/// The texts of the pieces for which something holds.
pub open spec fn texts_where(us: Seq<UnitView>, f: spec_fn(UnitView) -> bool) -> Seq<Seq<char>> {
    us.filter(f).map_values(|u: UnitView| u.text)
}

proof fn lemma_picked(
    us: Seq<UnitView>,
    pkg: Option<Seq<char>>,
    attrs: Option<bool>,
    f: spec_fn(UnitView) -> bool,
)
    requires
        forall|u: UnitView| #[trigger]
            f(u) == (u.pkg == pkg && (attrs matches Some(b) ==> layout::is_attribute(u.text) == b)),
    ensures
        layout::picked(us, pkg, attrs) == texts_where(us, f),
    decreases us.len(),
{
    reveal(Seq::filter);
    if us.len() == 0 {
        assert(layout::picked(us, pkg, attrs) =~= texts_where(us, f));
    } else {
        let init = us.drop_last();
        lemma_picked(init, pkg, attrs, f);
        assert(f(us.last()) == (us.last().pkg == pkg && (attrs matches Some(b)
            ==> layout::is_attribute(us.last().text) == b)));
        assert(layout::picked(us, pkg, attrs) =~= texts_where(us, f));
    }
}

/// A line that starts with the name of a package belongs to that package.
proof fn lemma_line_of(pkg: Seq<char>, rest: Seq<char>, other: Seq<char>)
    requires
        is_package(pkg),
        is_package(other),
        rest.len() > 0,
        rest[0] == '=' || rest[0] == '{' || rest[0] == ' ',
        !text::is_space(rest.last()),
    ensures
        layout::is_line_of(pkg + rest, other) <==> pkg == other,
{
    let s = pkg + rest;
    forms::lemma_word(pkg);
    forms::lemma_word(other);
    assert(s[0] == pkg[0]);
    assert(s.last() == rest.last());
    text::lemma_trimmed_id(s);
    let n = pkg.len() as int;
    let m = other.len() as int;
    assert(s[n] == rest[0]);
    assert(forms::is_plain(pkg[0]));
    if n > 1 {
        assert(s[1] == pkg[1]);
        assert(forms::is_plain(pkg[1]));
    }
    assert(!grammar::is_blank_or_comment(s));
    assert(s.take(n) =~= pkg);
    if text::starts(s, other) {
        assert(s.take(m) == other);
        if m < n {
            assert(s[m] == pkg[m]);
            assert(forms::is_plain(pkg[m]));
            assert(pkg.contains(pkg[m]));
            assert(pkg != other);
        } else if m > n {
            assert(s.take(m)[n] == rest[0]);
            assert(forms::is_plain(other[n]));
        } else {
            assert(pkg == other);
        }
    }
    let bracketed = seq!['['] + other + seq![']'];
    if s == bracketed {
        assert(bracketed[n] == rest[0]);
        if 0 < n <= m {
            assert(bracketed[n] == other[n - 1]);
            assert(forms::is_plain(other[n - 1]));
        } else {
            assert(bracketed.len() == m + 2);
            assert(n < m + 2);
            assert(bracketed[n] == ']');
        }
    }
    if pkg == other {
        assert(layout::ends_name(s[n]));
    }
}

/// The lines of a package, in their common forms, are known as such, and those
/// of other packages are not.
pub proof fn lines_are_told_apart(
    pkg: Seq<char>,
    thread: Seq<char>,
    v: Seq<char>,
    other: Seq<char>,
)
    requires
        is_package(pkg),
        is_package(other),
        forms::is_word(thread),
        forms::is_word(v),
    ensures
        layout::is_line_of(forms::package_line(pkg, v), other) <==> pkg == other,
        layout::is_line_of(forms::compact_line(pkg, thread, v), other) <==> pkg == other,
        layout::is_line_of(forms::open_line(pkg), other) <==> pkg == other,
        layout::is_line_of(forms::package_open_line(pkg, v), other) <==> pkg == other,
        !layout::is_line_of(forms::close_line(), other),
        layout::is_line_of(pkg, pkg),
        layout::is_line_of(seq!['['] + pkg + seq![']'], pkg),
{
    forms::lemma_word(v);
    forms::lemma_word(pkg);
    text::lemma_trimmed_id(pkg);
    assert(pkg.take(pkg.len() as int) =~= pkg);
    assert(forms::is_plain(pkg[0]));
    let named = seq!['['] + pkg + seq![']'];
    assert(named[0] == '[' && named.last() == ']');
    text::lemma_trimmed_id(named);
    let a = seq!['='] + v;
    let b = seq!['{'] + thread + seq!['}', '='] + v;
    let c = seq![' ', '{'];
    let d = seq!['='] + v + seq![' ', '{'];
    assert(a.last() == v.last());
    assert(b.last() == v.last());
    assert(d.last() == '{');
    lemma_line_of(pkg, a, other);
    lemma_line_of(pkg, b, other);
    lemma_line_of(pkg, c, other);
    lemma_line_of(pkg, d, other);
    assert(pkg + a =~= forms::package_line(pkg, v));
    assert(pkg + b =~= forms::compact_line(pkg, thread, v));
    assert(pkg + c =~= forms::open_line(pkg));
    assert(pkg + d =~= forms::package_open_line(pkg, v));
    let e = forms::close_line();
    forms::lemma_word(other);
    text::lemma_trimmed_id(e);
    if text::starts(e, other) {
        assert(e.take(other.len() as int)[0] == '}');
        assert(forms::is_plain(other[0]));
    }
    let bracketed = seq!['['] + other + seq![']'];
    assert(bracketed.len() > 1);
}

/// A new line of a package goes behind the last of its lines, or of its blocks:
/// none of its lines stands behind. Only where the file has no line of it is
/// there no such place.
pub proof fn new_lines_go_behind_their_package(lines: Seq<Seq<char>>, pkg: Seq<char>, i: int)
    requires
        0 <= i <= lines.len(),
    ensures
        match layout::last_end(lines, pkg, i) {
            None => forall|j: int|
                i <= j < lines.len() ==> !layout::is_line_of(#[trigger] lines[j], pkg),
            Some(e) => {
                &&& i < e <= lines.len()
                &&& forall|j: int|
                    e <= j < lines.len() ==> !layout::is_line_of(#[trigger] lines[j], pkg)
                &&& layout::is_line_of(lines[e - 1], pkg) || e == lines.len() || (
                lines[e - 1].contains('}') && exists|k: int|
                    i <= k < e - 1 && layout::is_line_of(#[trigger] lines[k], pkg)
                        && lines[k].contains('{'))
            },
        },
    decreases lines.len() - i,
{
    if i < lines.len() {
        if layout::is_line_of(lines[i], pkg) {
            lemma_block_end_bounds(lines, i + 1);
            let e = layout::segment_end(lines, i);
            new_lines_go_behind_their_package(lines, pkg, e);
            if let Some(x) = layout::last_end(lines, pkg, e) {
                if exists|k: int|
                    e <= k < x - 1 && layout::is_line_of(#[trigger] lines[k], pkg)
                        && lines[k].contains('{') {
                    let k = choose|k: int|
                        e <= k < x - 1 && layout::is_line_of(#[trigger] lines[k], pkg)
                            && lines[k].contains('{');
                    assert(layout::is_line_of(lines[k], pkg));
                }
            }
        } else {
            new_lines_go_behind_their_package(lines, pkg, i + 1);
            if let Some(x) = layout::last_end(lines, pkg, i + 1) {
                if exists|k: int|
                    i + 1 <= k < x - 1 && layout::is_line_of(#[trigger] lines[k], pkg)
                        && lines[k].contains('{') {
                    let k = choose|k: int|
                        i + 1 <= k < x - 1 && layout::is_line_of(#[trigger] lines[k], pkg)
                            && lines[k].contains('{');
                    assert(layout::is_line_of(lines[k], pkg));
                }
            }
        }
    }
}

proof fn lemma_block_end_bounds(lines: Seq<Seq<char>>, i: int)
    requires
        0 <= i <= lines.len(),
    ensures
        i <= layout::block_end(lines, i) <= lines.len(),
        layout::block_end(lines, i) < lines.len() ==> i < layout::block_end(lines, i),
        i < layout::block_end(lines, i) ==> lines[layout::block_end(lines, i) - 1].contains('}')
            || layout::block_end(lines, i) == lines.len(),
    decreases lines.len() - i,
{
    if i < lines.len() && !lines[i].contains('}') {
        lemma_block_end_bounds(lines, i + 1);
    }
}

/// What sets the rates of a package is found as such, and no CPU rule and no
/// line of another package is: only the former is replaced or removed.
#[verifier::rlimit(50)]
pub proof fn rules_are_no_settings(
    pkg: Seq<char>,
    thread: Seq<char>,
    v: Seq<char>,
    other: Seq<char>,
    timeout: i32,
    active: Seq<char>,
    idle: Seq<char>,
)
    requires
        is_package(pkg),
        is_package(other),
        forms::is_word(thread),
        is_value(v),
        timeout >= 0,
        forms::is_rate_text(active),
        forms::is_rate_text(idle),
    ensures
        !refresh_edit::is_hit(forms::package_line(pkg, v), other),
        !refresh_edit::is_hit(forms::compact_line(pkg, thread, v), other),
        !refresh_edit::is_hit(forms::open_line(pkg), other),
        !refresh_edit::is_hit(forms::package_open_line(pkg, v), other),
        !refresh_edit::is_hit(forms::thread_line(thread, v), other),
        !refresh_edit::is_hit(forms::close_line(), other),
        refresh_edit::is_hit(refresh_edit::app_line(pkg, timeout as int, active, idle), other)
            <==> pkg == other,
{
    forms::lemma_word(pkg);
    forms::lemma_word(thread);
    forms::lemma_word(v);
    lemma_package(pkg);
    reveal_strlit("refresh-");
    let tail = v + seq![' ', '{'];
    if text::starts(tail, "refresh-"@) {
        let r = "refresh-"@;
        if v.len() >= 8 {
            assert(v.take(8) =~= tail.take(8));
        } else {
            assert(tail.take(8)[v.len() as int] == ' ');
            assert(r[v.len() as int] != ' ');
        }
    }
    lemma_keyed(pkg, v, other);
    lemma_keyed(pkg, tail, other);
    assert(forms::package_open_line(pkg, v) =~= pkg + seq!['='] + tail);
    let left = pkg + seq!['{'] + thread + seq!['}'];
    assert(forms::compact_line(pkg, thread, v) =~= left + seq!['='] + v);
    assert(!left.contains('=')) by {
        if left.contains('=') {
            let j = left.index_of('=');
            if j < pkg.len() {
                assert(pkg[j] == '=');
            } else if pkg.len() < j < pkg.len() + 1 + thread.len() {
                assert(thread[j - pkg.len() - 1] == '=');
            }
        }
    }
    assert(left[0] == pkg[0]);
    assert(left.last() == '}');
    lemma_keyed(left, v, other);
    let line = forms::thread_line(thread, v);
    let s = thread + seq!['='] + v;
    assert forall|j: int| 0 <= j < 4 implies text::is_space(#[trigger] line[j]) by {}
    assert(line[4] == s[0] && s[0] == thread[0]);
    assert(line.last() == s.last() && s.last() == v.last());
    text::lemma_trimmed_is(line, 4, line.len() as int);
    assert(line.subrange(4, line.len() as int) =~= s);
    lemma_keyed(thread, v, other);
    text::trimming_twice(line);
    let o = forms::open_line(pkg);
    assert(o[0] == pkg[0] && o.last() == '{');
    text::lemma_trimmed_id(o);
    assert forall|c: char| o.contains(c) implies pkg.contains(c) || c == ' ' || c == '{' by {
        let j = o.index_of(c);
        if j < pkg.len() {
            assert(pkg[j] == c);
        }
    }
    forms::lemma_first_none(o, '=');
    text::lemma_pieces_single(o, ',');
    let e = forms::close_line();
    text::lemma_trimmed_id(e);
    assert(e[0] == '}');
    if e.contains('=') || e.contains(',') {
        assert(e[0] == '}');
    }
    forms::lemma_first_none(e, '=');
    text::lemma_pieces_single(e, ',');
    forms::lemma_app_words(pkg, timeout, active, idle);
    let l = refresh_edit::app_line(pkg, timeout as int, active, idle);
    let w = l.skip(pkg.len() as int + 1);
    forms::lemma_word(w);
    lemma_keyed(pkg, w, other);
    assert(l[0] == pkg[0] && l.last() == w.last());
    text::lemma_trimmed_id(l);
    assert(forms::is_plain(pkg[0]));
}

/// Whether a line with a key holds settings depends on the key and the start of
/// the value.
proof fn lemma_keyed(key: Seq<char>, v: Seq<char>, pkg: Seq<char>)
    requires
        key.len() > 0,
        v.len() > 0,
        !key.contains('='),
        !text::is_space(key[0]),
        !text::is_space(key.last()),
        !text::is_space(v.last()),
    ensures
        refresh_edit::is_setting_of(key + seq!['='] + v, pkg) == (key == pkg && text::starts(
            v,
            "refresh-"@,
        )),
{
    let s = key + seq!['='] + v;
    assert(s[0] == key[0]);
    assert(s.last() == v.last());
    text::lemma_trimmed_id(s);
    text::lemma_trimmed_id(key);
    forms::lemma_first_in(key, '=', v);
}

/// What a file in its common forms names as packages are the packages of its
/// pieces, and with the packages of the configuration in force it is left alone.
pub proof fn packages_of_files(ps: Seq<Piece>, pkg: Seq<char>)
    requires
        are_pieces(ps),
    ensures
        layout::unit_pkgs(layout::units(all_lines(ps), 0)).contains(pkg) <==> exists|i: int|
            0 <= i < ps.len() && package_of(#[trigger] ps[i]) == Some(pkg),
{
    let none = Seq::<Seq<char>>::empty();
    lemma_units(none, ps);
    assert(none + all_lines(ps) =~= all_lines(ps));
    let us = layout::units(all_lines(ps), 0);
    if layout::unit_pkgs(us).contains(pkg) {
        let i = choose|i: int| 0 <= i < us.len() && (#[trigger] us[i]).pkg == Some(pkg);
        assert(package_of(ps[i]) == Some(pkg));
    }
    if exists|i: int| 0 <= i < ps.len() && package_of(#[trigger] ps[i]) == Some(pkg) {
        let i = choose|i: int| 0 <= i < ps.len() && package_of(#[trigger] ps[i]) == Some(pkg);
        assert(us[i].pkg == Some(pkg));
    }
}

/// A comment behind a line makes no difference to its kind.
pub proof fn comments_change_no_kinds(s: Seq<char>, note: Seq<char>)
    requires
        s.len() > 0,
        !text::is_space(s[0]),
        !text::is_space(s.last()),
        !s.contains('#'),
        !s.contains('/'),
    ensures
        layout::kind_of(s + seq![' ', '#'] + note) == layout::kind_of(s),
{
    let line = s + seq![' ', '#'] + note;
    let n = s.len() as int;
    forms::lemma_clean(s);
    assert forall|j: int| 0 <= j < n + 1 implies !grammar::comment_here(line, j) by {
        assert(line.skip(j)[0] == line[j]);
        if j < n {
            assert(line[j] == s[j]);
            assert(s.contains(s[j]));
        }
    }
    assert(line.skip(n + 1)[0] == '#');
    assert(text::is_space(line[n]));
    assert(grammar::comment_here(line, n + 1));
    forms::lemma_comment_at(line, 0, n + 1);
    let head = line.take(n + 1);
    assert(head.take(n) =~= s);
    text::lemma_trimmed_end(head, n);
    assert(text::trimmed_end(s) == s);
    assert(grammar::uncommented(line) == s);
    assert(line[0] == s[0]);
    assert(!grammar::is_blank_or_comment(line)) by {
        let (lo, hi) = text::lemma_core(line);
        assert(lo == 0);
        assert(hi > 0) by {
            if hi == 0 {
                assert(text::is_space(line[0]));
            }
        }
        assert(text::trimmed(line)[0] == s[0]);
        if s[0] == '#' || s[0] == '/' {
            assert(s.contains(s[0]));
        }
    }
}

/// A line of fields with commas between them belongs to the package that its
/// first field names.
#[verifier::rlimit(50)]
pub proof fn lines_of_fields_belong_to_their_first(
    pkg: Seq<char>,
    t: Seq<char>,
    v: Seq<char>,
)
    requires
        is_package(pkg),
        forms::is_word(t),
        forms::is_word(v),
        !t.contains(','),
        !v.contains(','),
    ensures
        layout::kind_of(pkg + seq![','] + t + seq![','] + v) == KindView::Pkg(pkg),
{
    forms::lemma_word(pkg);
    forms::lemma_word(t);
    forms::lemma_word(v);
    lemma_package(pkg);
    let ws = seq![pkg, t, v];
    let s = pkg + seq![','] + t + seq![','] + v;
    lemma_comma_line(ws);
    reveal_with_fuel(text::joined, 4);
    assert(ws.drop_last() =~= seq![pkg, t]);
    assert(seq![pkg, t].drop_last() =~= seq![pkg]);
    assert(text::joined(ws, seq![',']) =~= s);
    let n1 = pkg.len() as int;
    let n2 = n1 + 1 + t.len();
    assert forall|j: int| 0 <= j < s.len() implies forms::is_plain(#[trigger] s[j]) by {
        if j < n1 {
            assert(s[j] == pkg[j]);
        } else if n1 < j < n2 {
            assert(s[j] == t[j - n1 - 1]);
        } else if n2 < j {
            assert(s[j] == v[j - n2 - 1]);
        }
    }
    forms::lemma_word(s);
    forms::lemma_clean(s);
    forms::lemma_first_none(s, '=');
    assert(grammar::one_line_rule(s) is None);
    assert(layout::named_package(s) == Some(pkg));
}

} // verus!
