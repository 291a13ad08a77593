//! The forms in which a rule can stand in the rule file, and that they mean the
//! same.
use vstd::prelude::*;

use crate::config;
use crate::config::LoadView;
use crate::cpuset;
use crate::cpuset::CpuTopology;
use crate::grammar;
use crate::number;
use crate::refresh_edit;
use crate::refresh_lines;
use crate::text;

verus! {

broadcast use vstd::string::group_string_axioms;

/// A character with no meaning of its own in the rule file.
pub open spec fn is_plain(c: char) -> bool {
    !text::is_space(c) && c != '#' && c != '/' && c != '=' && c != '{' && c != '}'
}

/// A text of such characters.
pub open spec fn is_word(s: Seq<char>) -> bool {
    s.len() > 0 && forall|i: int| 0 <= i < s.len() ==> is_plain(#[trigger] s[i])
}

/// `pkg=cpus`, a rule for a package.
pub open spec fn package_line(pkg: Seq<char>, cpus: Seq<char>) -> Seq<char> {
    pkg + seq!['='] + cpus
}

/// `pkg {`, the start of a block.
pub open spec fn open_line(pkg: Seq<char>) -> Seq<char> {
    pkg + seq![' ', '{']
}

/// `pkg=cpus {`, a rule for a package and the start of a block.
pub open spec fn package_open_line(pkg: Seq<char>, cpus: Seq<char>) -> Seq<char> {
    pkg + seq!['='] + cpus + seq![' ', '{']
}

/// `    thread=cpus`, a rule inside a block.
pub open spec fn thread_line(thread: Seq<char>, cpus: Seq<char>) -> Seq<char> {
    seq![' ', ' ', ' ', ' '] + (thread + seq!['='] + cpus)
}

/// `}`, the end of a block.
pub open spec fn close_line() -> Seq<char> {
    seq!['}']
}

/// `pkg{thread}=cpus`, a rule for a thread on one line.
pub open spec fn compact_line(pkg: Seq<char>, thread: Seq<char>, cpus: Seq<char>) -> Seq<char> {
    pkg + seq!['{'] + thread + seq!['}', '='] + cpus
}

/// No block is open and no package waits for one.
pub open spec fn is_between(st: LoadView) -> bool {
    !st.in_block && st.cur.len() == 0 && st.pending.len() == 0
}

/// A line without comment marks has no comment.
proof fn lemma_no_comment(s: Seq<char>, i: int)
    requires
        !s.contains('#'),
        !s.contains('/'),
        0 <= i <= s.len(),
    ensures
        grammar::comment_from(s, i) == s.len(),
    decreases s.len() - i,
{
    if i < s.len() {
        if grammar::comment_here(s, i) {
            assert(s.skip(i)[0] == s[i]);
            assert(s.contains(s[i]));
        }
        lemma_no_comment(s, i + 1);
    }
}

/// A line that starts and ends in characters that count, and holds no comment
/// marks, is read as it stands.
pub(crate) proof fn lemma_clean(s: Seq<char>)
    requires
        s.len() > 0,
        !text::is_space(s[0]),
        !text::is_space(s.last()),
        !s.contains('#'),
        !s.contains('/'),
    ensures
        text::trimmed(s) == s,
        grammar::uncommented(s) == s,
        !grammar::is_blank_or_comment(s),
{
    text::lemma_trimmed_id(s);
    lemma_no_comment(s, 0);
    if s[0] == '#' || s[0] == '/' {
        assert(s.contains(s[0]));
    }
}

pub(crate) proof fn lemma_word(s: Seq<char>)
    requires
        is_word(s),
    ensures
        text::trimmed(s) == s,
        !text::is_space(s[0]),
        !text::is_space(s.last()),
        !s.contains('#'),
        !s.contains('/'),
        !s.contains('='),
        !s.contains('{'),
        !s.contains('}'),
        s.last() != '{',
        s.last() != '}',
{
    assert(is_plain(s[0]));
    assert(is_plain(s[s.len() - 1]));
    text::lemma_trimmed_id(s);
    assert forall|c: char| !is_plain(c) implies !s.contains(c) by {
        if s.contains(c) {
            let j = s.index_of(c);
            assert(is_plain(s[j]));
        }
    }
}

pub(crate) proof fn lemma_first_in(a: Seq<char>, c: char, b: Seq<char>)
    requires
        !a.contains(c),
    ensures
        text::first(a + seq![c] + b, c) == a.len(),
        (a + seq![c] + b).take(a.len() as int) == a,
        (a + seq![c] + b).skip(a.len() as int + 1) == b,
{
    let s = a + seq![c] + b;
    assert forall|j: int| 0 <= j < a.len() implies s[j] != c by {
        assert(s[j] == a[j]);
    }
    text::lemma_first_at(s, c, a.len() as int);
    assert(s.take(a.len() as int) =~= a);
    assert(s.skip(a.len() as int + 1) =~= b);
}

pub(crate) proof fn lemma_first_none(s: Seq<char>, c: char)
    requires
        !s.contains(c),
    ensures
        text::first(s, c) == s.len(),
{
    text::lemma_first(s, c);
}

/// `pkg {` opens a block.
proof fn lemma_open_line(st: LoadView, pkg: Seq<char>, topo: CpuTopology)
    requires
        is_between(st),
        is_word(pkg),
    ensures
        config::load_step(st, open_line(pkg), topo) == st.opened(pkg),
{
    let s = open_line(pkg);
    lemma_word(pkg);
    assert(s[0] == pkg[0]);
    assert forall|c: char| s.contains(c) implies pkg.contains(c) || c == ' ' || c == '{' by {
        let j = s.index_of(c);
        if j < pkg.len() {
            assert(pkg[j] == c);
        }
    }
    lemma_clean(s);
    lemma_first_none(s, '=');
    let cut = s.drop_last();
    assert(cut.take(pkg.len() as int) =~= pkg);
    text::lemma_trimmed_end(cut, pkg.len() as int);
    assert(text::trimmed_end(pkg) == pkg);
    lemma_first_none(pkg, '=');
    assert(grammar::outer(s) == grammar::OuterView::BareOpen { pkg });
    assert(st.no_pending() =~= st);
}

/// `pkg=cpus {` sets a rule and opens a block.
proof fn lemma_package_open_line(
    st: LoadView,
    pkg: Seq<char>,
    cpus: Seq<char>,
    topo: CpuTopology,
)
    requires
        is_between(st),
        is_word(pkg),
        is_word(cpus),
        !refresh_lines::is_global_key(pkg),
        !text::starts(cpus, "refresh-"@),
    ensures
        config::load_step(st, package_open_line(pkg, cpus), topo) == st.with_rule(
            topo,
            pkg,
            seq![],
            cpus,
        ).opened(pkg),
{
    let s = package_open_line(pkg, cpus);
    let body = package_line(pkg, cpus);
    lemma_word(pkg);
    lemma_word(cpus);
    assert(s[0] == pkg[0]);
    assert forall|c: char| s.contains(c) implies pkg.contains(c) || cpus.contains(c) || c == '=' || c
        == ' ' || c == '{' by {
        let j = s.index_of(c);
        if j < pkg.len() {
            assert(pkg[j] == c);
        } else if pkg.len() < j < pkg.len() + 1 + cpus.len() {
            assert(cpus[j - pkg.len() - 1] == c);
        }
    }
    lemma_clean(s);
    assert(s =~= pkg + seq!['='] + (cpus + seq![' ', '{']));
    lemma_first_in(pkg, '=', cpus + seq![' ', '{']);
    let cut = s.drop_last();
    let n = body.len() as int;
    assert(cut.take(n) =~= body);
    assert forall|j: int| n <= j < cut.len() implies text::is_space(cut[j]) by {}
    text::lemma_trimmed_end(cut, n);
    assert(body.last() == cpus.last());
    assert(text::trimmed_end(body) == body);
    lemma_first_in(pkg, '=', cpus);
    lemma_first_none(pkg, '{');
    assert(text::trimmed_end(pkg) == pkg);
    assert(grammar::outer(s) == grammar::OuterView::Rule { pkg, cpus, open: true });
    assert(st.no_pending() =~= st);
}

/// `pkg=cpus` sets a rule for a package.
proof fn lemma_package_line(st: LoadView, pkg: Seq<char>, cpus: Seq<char>, topo: CpuTopology)
    requires
        is_between(st),
        is_word(pkg),
        is_word(cpus),
        !refresh_lines::is_global_key(pkg),
        !text::starts(cpus, "refresh-"@),
    ensures
        config::load_step(st, package_line(pkg, cpus), topo) == st.with_rule(
            topo,
            pkg,
            seq![],
            cpus,
        ),
{
    let s = package_line(pkg, cpus);
    lemma_word(pkg);
    lemma_word(cpus);
    assert(s[0] == pkg[0]);
    assert(s.last() == cpus.last());
    assert forall|c: char| s.contains(c) implies pkg.contains(c) || cpus.contains(c) || c == '=' by {
        let j = s.index_of(c);
        if j < pkg.len() {
            assert(pkg[j] == c);
        } else if pkg.len() < j {
            assert(cpus[j - pkg.len() - 1] == c);
        }
    }
    lemma_clean(s);
    lemma_first_in(pkg, '=', cpus);
    lemma_first_none(pkg, '{');
    assert(text::trimmed_end(pkg) == pkg);
    if s[0] == '}' {
        assert(pkg.contains(pkg[0]));
    }
    assert(grammar::outer(s) == grammar::OuterView::Rule { pkg, cpus, open: false });
    assert(st.no_pending() =~= st);
}

/// `thread=cpus` in a block sets a rule for a thread.
proof fn lemma_thread_line(st: LoadView, thread: Seq<char>, cpus: Seq<char>, topo: CpuTopology)
    requires
        st.in_block,
        is_word(thread),
        is_word(cpus),
        !refresh_lines::is_global_key(thread),
    ensures
        config::load_step(st, thread_line(thread, cpus), topo) == st.with_rule(
            topo,
            st.cur,
            thread,
            cpus,
        ),
{
    let line = thread_line(thread, cpus);
    let s = thread + seq!['='] + cpus;
    lemma_word(thread);
    lemma_word(cpus);
    assert(s[0] == thread[0]);
    assert(s.last() == cpus.last());
    assert forall|c: char| s.contains(c) implies thread.contains(c) || cpus.contains(c) || c == '=' by {
        let j = s.index_of(c);
        if j < thread.len() {
            assert(thread[j] == c);
        } else if thread.len() < j {
            assert(cpus[j - thread.len() - 1] == c);
        }
    }
    assert forall|j: int| 0 <= j < 4 implies text::is_space(#[trigger] line[j]) by {}
    assert(line[4] == s[0]);
    assert(line.last() == s.last());
    text::lemma_trimmed_is(line, 4, line.len() as int);
    assert(line.subrange(4, line.len() as int) =~= s);
    lemma_clean(s);
    lemma_first_in(thread, '=', cpus);
    lemma_first_none(cpus, '}');
    assert(cpus.take(cpus.len() as int) =~= cpus);
    if s[0] == '}' {
        assert(thread.contains(thread[0]));
    }
    assert(grammar::block_rule(s) == Some((thread, cpus, false)));
}

/// `}` closes the block.
proof fn lemma_close_line(st: LoadView, topo: CpuTopology)
    requires
        st.in_block,
    ensures
        config::load_step(st, close_line(), topo) == st.closed(),
{
    let s = close_line();
    if s.contains('#') || s.contains('/') || s.contains('=') {
        assert(s[0] == '}');
    }
    lemma_clean(s);
    lemma_first_none(s, '=');
    assert(s.skip(1).len() == 0);
}

/// `pkg{thread}=cpus` outside any block is a rule for a thread.
#[verifier::rlimit(50)]
pub(crate) proof fn lemma_outer_compact(pkg: Seq<char>, thread: Seq<char>, cpus: Seq<char>)
    requires
        is_word(pkg),
        is_word(thread),
        is_word(cpus),
    ensures
        ({
            let s = compact_line(pkg, thread, cpus);
            &&& grammar::outer(s) == grammar::OuterView::Single { pkg, thread, cpus, open: false }
            &&& text::trimmed(s) == s
            &&& grammar::uncommented(s) == s
            &&& !grammar::is_blank_or_comment(s)
            &&& !refresh_lines::is_global_line(s)
            &&& grammar::one_line_rule(s) == Some((pkg, thread, cpus))
            &&& !s.contains('#') && !s.contains('/')
        }),
{
    let s = compact_line(pkg, thread, cpus);
    let left = pkg + seq!['{'] + (thread + seq!['}']);
    lemma_word(pkg);
    lemma_word(thread);
    lemma_word(cpus);
    assert(s =~= left + seq!['='] + cpus);
    assert(s[0] == pkg[0]);
    assert(s.last() == cpus.last());
    assert forall|c: char| left.contains(c) implies pkg.contains(c) || thread.contains(c) || c
        == '{' || c == '}' by {
        let j = left.index_of(c);
        if j < pkg.len() {
            assert(pkg[j] == c);
        } else if pkg.len() < j < pkg.len() + 1 + thread.len() {
            assert(thread[j - pkg.len() - 1] == c);
        }
    }
    assert forall|c: char| s.contains(c) implies left.contains(c) || cpus.contains(c) || c == '=' by {
        let j = s.index_of(c);
        if j < left.len() {
            assert(left[j] == c);
        } else if left.len() < j {
            assert(cpus[j - left.len() - 1] == c);
        }
    }
    lemma_clean(s);
    lemma_first_in(left, '=', cpus);
    assert(left.last() == '}');
    assert(text::trimmed_end(left) == left);
    lemma_first_in(pkg, '{', thread + seq!['}']);
    let t = thread + seq!['}'];
    assert(t[0] == thread[0]);
    text::lemma_trimmed_id(t);
    assert(t.drop_last() =~= thread);
    assert(grammar::one_line_rule(s) == Some((pkg, thread, cpus)));
    assert(grammar::outer(s) == grammar::OuterView::Single { pkg, thread, cpus, open: false });
    let key = text::trimmed(left);
    text::lemma_trimmed_id(left);
    assert(left[pkg.len() as int] == '{');
    assert(left.contains('{'));
    reveal_strlit("refresh_timeout");
    reveal_strlit("refresh_active");
    reveal_strlit("refresh_idle");
    assert(!refresh_lines::is_global_key(left));
}

/// `pkg{thread}=cpus` sets a rule for a thread.
proof fn lemma_compact_line(
    st: LoadView,
    pkg: Seq<char>,
    thread: Seq<char>,
    cpus: Seq<char>,
    topo: CpuTopology,
)
    requires
        is_between(st),
        is_word(pkg),
        is_word(thread),
        is_word(cpus),
    ensures
        config::load_step(st, compact_line(pkg, thread, cpus), topo) == st.with_rule(
            topo,
            pkg,
            thread,
            cpus,
        ),
{
    lemma_outer_compact(pkg, thread, cpus);
    assert(st.no_pending() =~= st);
}

/// The reading after some more lines.
pub open spec fn read_on(st: LoadView, lines: Seq<Seq<char>>, n: nat, topo: CpuTopology) -> LoadView
    decreases n,
{
    if n == 0 {
        st
    } else {
        config::load_step(read_on(st, lines, (n - 1) as nat, topo), lines[n - 1], topo)
    }
}

/// The rules of threads inside a block.
pub open spec fn thread_lines(items: Seq<(Seq<char>, Seq<char>)>) -> Seq<Seq<char>> {
    items.map_values(|i: (Seq<char>, Seq<char>)| thread_line(i.0, i.1))
}

/// A block with the rules of threads.
pub open spec fn block_lines(pkg: Seq<char>, items: Seq<(Seq<char>, Seq<char>)>) -> Seq<Seq<char>> {
    seq![open_line(pkg)] + thread_lines(items) + seq![close_line()]
}

/// The rules of threads on a line each.
pub open spec fn compact_lines(pkg: Seq<char>, items: Seq<(Seq<char>, Seq<char>)>) -> Seq<
    Seq<char>,
> {
    items.map_values(|i: (Seq<char>, Seq<char>)| compact_line(pkg, i.0, i.1))
}

/// Threads and CPUs that can be written in either form.
pub open spec fn are_words(items: Seq<(Seq<char>, Seq<char>)>) -> bool {
    forall|i: int|
        0 <= i < items.len() ==> is_word((#[trigger] items[i]).0) && is_word(items[i].1)
            && !refresh_lines::is_global_key(items[i].0)
}

/// The reading with the rules of the first `n` items added.
pub open spec fn with_items(
    st: LoadView,
    pkg: Seq<char>,
    items: Seq<(Seq<char>, Seq<char>)>,
    n: nat,
    topo: CpuTopology,
) -> LoadView
    decreases n,
{
    if n == 0 {
        st
    } else {
        with_items(st, pkg, items, (n - 1) as nat, topo).with_rule(
            topo,
            pkg,
            items[n - 1].0,
            items[n - 1].1,
        )
    }
}

proof fn lemma_with_items(
    st: LoadView,
    pkg: Seq<char>,
    items: Seq<(Seq<char>, Seq<char>)>,
    n: nat,
    topo: CpuTopology,
)
    ensures
        with_items(st.opened(pkg), pkg, items, n, topo) == with_items(
            st,
            pkg,
            items,
            n,
            topo,
        ).opened(pkg),
        with_items(st, pkg, items, n, topo).in_block == st.in_block,
        with_items(st, pkg, items, n, topo).cur == st.cur,
        with_items(st, pkg, items, n, topo).pending == st.pending,
    decreases n,
{
    if n > 0 {
        lemma_with_items(st, pkg, items, (n - 1) as nat, topo);
        assert(with_items(st.opened(pkg), pkg, items, n, topo) =~= with_items(
            st,
            pkg,
            items,
            n,
            topo,
        ).opened(pkg));
    } else {
        assert(with_items(st.opened(pkg), pkg, items, 0, topo) == st.opened(pkg));
    }
}

proof fn lemma_compact(
    st: LoadView,
    pkg: Seq<char>,
    items: Seq<(Seq<char>, Seq<char>)>,
    n: nat,
    topo: CpuTopology,
)
    requires
        is_between(st),
        is_word(pkg),
        are_words(items),
        n <= items.len(),
    ensures
        read_on(st, compact_lines(pkg, items), n, topo) == with_items(st, pkg, items, n, topo),
    decreases n,
{
    if n > 0 {
        let m = (n - 1) as nat;
        lemma_compact(st, pkg, items, m, topo);
        lemma_with_items(st, pkg, items, m, topo);
        lemma_compact_line(
            with_items(st, pkg, items, m, topo),
            pkg,
            items[n - 1].0,
            items[n - 1].1,
            topo,
        );
    }
}

proof fn lemma_in_block(
    st: LoadView,
    pkg: Seq<char>,
    items: Seq<(Seq<char>, Seq<char>)>,
    lines: Seq<Seq<char>>,
    n: nat,
    topo: CpuTopology,
)
    requires
        is_between(st),
        is_word(pkg),
        are_words(items),
        n <= items.len(),
        lines.len() > n,
        config::load_step(st, lines[0], topo) == st.opened(pkg),
        forall|i: int|
            0 <= i < n ==> #[trigger] lines[i + 1] == thread_line(items[i].0, items[i].1),
    ensures
        read_on(st, lines, n + 1, topo) == with_items(st, pkg, items, n, topo).opened(pkg),
    decreases n,
{
    if n == 0 {
        assert(read_on(st, lines, 0, topo) == st);
        assert(read_on(st, lines, 1, topo) == config::load_step(
            read_on(st, lines, 0, topo),
            lines[0],
            topo,
        ));
    } else {
        let m = (n - 1) as nat;
        lemma_in_block(st, pkg, items, lines, m, topo);
        lemma_with_items(st, pkg, items, m, topo);
        lemma_with_items(st, pkg, items, n, topo);
        assert(lines[m as int + 1] == thread_line(items[m as int].0, items[m as int].1));
        lemma_thread_line(
            with_items(st, pkg, items, m, topo).opened(pkg),
            items[m as int].0,
            items[m as int].1,
            topo,
        );
        assert(read_on(st, lines, n + 1, topo) == config::load_step(
            read_on(st, lines, n, topo),
            lines[n as int],
            topo,
        ));
        let a = with_items(st, pkg, items, m, topo);
        assert(a.opened(pkg).with_rule(topo, pkg, items[m as int].0, items[m as int].1)
            =~= a.with_rule(topo, pkg, items[m as int].0, items[m as int].1).opened(pkg));
    }
}

/// A block with rules for threads means the same as these rules on a line each.
pub proof fn blocks_are_compact_lines(
    st: LoadView,
    pkg: Seq<char>,
    items: Seq<(Seq<char>, Seq<char>)>,
    topo: CpuTopology,
)
    requires
        is_between(st),
        is_word(pkg),
        are_words(items),
    ensures
        read_on(st, block_lines(pkg, items), items.len() + 2, topo) == read_on(
            st,
            compact_lines(pkg, items),
            items.len(),
            topo,
        ),
{
    let n = items.len();
    let lines = block_lines(pkg, items);
    assert(lines[0] == open_line(pkg));
    lemma_open_line(st, pkg, topo);
    assert forall|i: int| 0 <= i < n implies #[trigger] lines[i + 1] == thread_line(
        items[i].0,
        items[i].1,
    ) by {
        assert(thread_lines(items)[i] == thread_line(items[i].0, items[i].1));
    }
    lemma_in_block(st, pkg, items, lines, n, topo);
    lemma_with_items(st, pkg, items, n, topo);
    assert(lines[(n + 1) as int] == close_line());
    let a = with_items(st, pkg, items, n, topo);
    lemma_close_line(a.opened(pkg), topo);
    assert(st.cur =~= Seq::<char>::empty());
    assert(a.opened(pkg).closed() =~= a);
    lemma_compact(st, pkg, items, n, topo);
}

/// A block that starts with a rule for the package means the same as that rule
/// and the block without it.
pub proof fn package_rules_open_blocks(
    st: LoadView,
    pkg: Seq<char>,
    cpus: Seq<char>,
    topo: CpuTopology,
)
    requires
        is_between(st),
        is_word(pkg),
        is_word(cpus),
        !refresh_lines::is_global_key(pkg),
        !text::starts(cpus, "refresh-"@),
    ensures
        read_on(st, seq![package_open_line(pkg, cpus)], 1, topo) == read_on(
            st,
            seq![package_line(pkg, cpus), open_line(pkg)],
            2,
            topo,
        ),
{
    lemma_package_open_line(st, pkg, cpus, topo);
    lemma_package_line(st, pkg, cpus, topo);
    let a = st.with_rule(topo, pkg, seq![], cpus);
    lemma_open_line(a, pkg, topo);
    let one = seq![package_open_line(pkg, cpus)];
    let two = seq![package_line(pkg, cpus), open_line(pkg)];
    reveal_with_fuel(read_on, 3);
    assert(one[0] == package_open_line(pkg, cpus));
    assert(two[0] == package_line(pkg, cpus));
    assert(two[1] == open_line(pkg));
}

/// `    thread=cpus }`, a rule inside a block that ends the block.
pub open spec fn thread_close_line(thread: Seq<char>, cpus: Seq<char>) -> Seq<char> {
    thread_line(thread, cpus) + seq![' ', '}']
}

/// `pkg { thread=cpus }`, a block on one line.
pub open spec fn inline_line(pkg: Seq<char>, thread: Seq<char>, cpus: Seq<char>) -> Seq<char> {
    pkg + seq![' ', '{', ' '] + thread + seq!['='] + cpus + seq![' ', '}']
}

/// The reading with one rule more at the end, or, where there is none, with one
/// failure more.
pub open spec fn taken(st: LoadView, rule: Option<config::RuleView>) -> LoadView {
    match rule {
        Some(r) => LoadView { rules: st.rules.push(r), ..st },
        None => LoadView { fails: st.fails + 1, ..st },
    }
}

proof fn lemma_taken(
    st: LoadView,
    topo: CpuTopology,
    pkg: Seq<char>,
    thread: Seq<char>,
    value: Seq<char>,
)
    ensures
        st.with_rule(topo, pkg, thread, value) == taken(
            st,
            config::rule_for(topo, pkg, thread, value),
        ),
{
}

/// Between blocks, `pkg=cpus` sets a rule for the package and nothing else.
pub proof fn package_lines_set_rules(
    st: LoadView,
    pkg: Seq<char>,
    cpus: Seq<char>,
    topo: CpuTopology,
)
    requires
        is_between(st),
        is_word(pkg),
        is_word(cpus),
        !refresh_lines::is_global_key(pkg),
        !text::starts(cpus, "refresh-"@),
    ensures
        config::load_step(st, package_line(pkg, cpus), topo) == taken(
            st,
            config::rule_for(topo, pkg, seq![], cpus),
        ),
{
    lemma_package_line(st, pkg, cpus, topo);
    lemma_taken(st, topo, pkg, seq![], cpus);
}

/// Between blocks, `pkg{thread}=cpus` sets a rule for the thread and nothing
/// else.
pub proof fn compact_lines_set_rules(
    st: LoadView,
    pkg: Seq<char>,
    thread: Seq<char>,
    cpus: Seq<char>,
    topo: CpuTopology,
)
    requires
        is_between(st),
        is_word(pkg),
        is_word(thread),
        is_word(cpus),
    ensures
        config::load_step(st, compact_line(pkg, thread, cpus), topo) == taken(
            st,
            config::rule_for(topo, pkg, thread, cpus),
        ),
{
    lemma_compact_line(st, pkg, thread, cpus, topo);
    lemma_taken(st, topo, pkg, thread, cpus);
}

/// `pkg {` opens a block of the package, and `pkg=cpus {` sets its rule, too.
pub proof fn opening_lines_open_blocks(
    st: LoadView,
    pkg: Seq<char>,
    cpus: Seq<char>,
    topo: CpuTopology,
)
    requires
        is_between(st),
        is_word(pkg),
        is_word(cpus),
        !refresh_lines::is_global_key(pkg),
        !text::starts(cpus, "refresh-"@),
    ensures
        config::load_step(st, open_line(pkg), topo) == (LoadView { in_block: true, cur: pkg, ..st }),
        config::load_step(st, package_open_line(pkg, cpus), topo) == (LoadView {
            in_block: true,
            cur: pkg,
            ..taken(st, config::rule_for(topo, pkg, seq![], cpus))
        }),
{
    lemma_open_line(st, pkg, topo);
    lemma_package_open_line(st, pkg, cpus, topo);
    lemma_taken(st, topo, pkg, seq![], cpus);
}

/// In a block, `thread=cpus` sets a rule for that thread of the block's package,
/// and `}` ends the block.
pub proof fn block_lines_set_rules(
    st: LoadView,
    thread: Seq<char>,
    cpus: Seq<char>,
    topo: CpuTopology,
)
    requires
        st.in_block,
        is_word(thread),
        is_word(cpus),
        !refresh_lines::is_global_key(thread),
    ensures
        config::load_step(st, thread_line(thread, cpus), topo) == taken(
            st,
            config::rule_for(topo, st.cur, thread, cpus),
        ),
        config::load_step(st, close_line(), topo) == (LoadView {
            in_block: false,
            cur: seq![],
            ..st
        }),
{
    lemma_thread_line(st, thread, cpus, topo);
    lemma_close_line(st, topo);
    lemma_taken(st, topo, st.cur, thread, cpus);
}

/// In a block, `thread=cpus }` sets the rule and ends the block: it means the
/// same as `thread=cpus` and a line `}`, so that what follows is read as lines
/// outside any block.
#[verifier::rlimit(50)]
pub proof fn closing_lines_end_blocks(
    st: LoadView,
    thread: Seq<char>,
    cpus: Seq<char>,
    topo: CpuTopology,
)
    requires
        st.in_block,
        is_word(thread),
        is_word(cpus),
        !refresh_lines::is_global_key(thread),
    ensures
        ({
            let end = config::load_step(st, thread_close_line(thread, cpus), topo);
            &&& end == config::load_step(
                config::load_step(st, thread_line(thread, cpus), topo),
                close_line(),
                topo,
            )
            &&& end == LoadView {
                in_block: false,
                cur: seq![],
                ..taken(st, config::rule_for(topo, st.cur, thread, cpus))
            }
            &&& st.pending.len() == 0 ==> is_between(end)
        }),
{
    let line = thread_close_line(thread, cpus);
    let tail = cpus + seq![' ', '}'];
    let s = thread + seq!['='] + tail;
    lemma_word(thread);
    lemma_word(cpus);
    assert(s[0] == thread[0]);
    assert(s.last() == '}');
    assert forall|c: char| s.contains(c) implies thread.contains(c) || cpus.contains(c) || c == '='
        || c == ' ' || c == '}' by {
        let j = s.index_of(c);
        if j < thread.len() {
            assert(thread[j] == c);
        } else if thread.len() < j < thread.len() + 1 + cpus.len() {
            assert(cpus[j - thread.len() - 1] == c);
        }
    }
    assert forall|j: int| 0 <= j < 4 implies text::is_space(#[trigger] line[j]) by {}
    assert(line[4] == s[0]);
    assert(line.last() == s.last());
    text::lemma_trimmed_is(line, 4, line.len() as int);
    assert(line.subrange(4, line.len() as int) =~= s);
    lemma_clean(s);
    lemma_first_in(thread, '=', tail);
    let n = cpus.len() as int;
    assert forall|j: int| 0 <= j < n + 1 implies tail[j] != '}' by {
        if j < n {
            assert(cpus[j] == tail[j]);
            assert(is_plain(cpus[j]));
        }
    }
    assert(tail[n + 1] == '}');
    text::lemma_first_at(tail, '}', n + 1);
    let head = tail.take(n + 1);
    assert(head[0] == cpus[0]);
    assert(head[n - 1] == cpus[n - 1]);
    assert(is_plain(cpus[0]) && is_plain(cpus[n - 1]));
    assert(text::is_space(head[n]));
    text::lemma_trimmed_is(head, 0, n);
    assert(head.subrange(0, n) =~= cpus);
    if s[0] == '}' {
        assert(thread.contains(thread[0]));
    }
    assert(grammar::block_rule(s) == Some((thread, cpus, true)));
    lemma_thread_line(st, thread, cpus, topo);
    lemma_taken(st, topo, st.cur, thread, cpus);
    let mid = st.with_rule(topo, st.cur, thread, cpus);
    lemma_close_line(mid, topo);
    assert(refresh_lines::setting(s) == Some((thread, text::trimmed(tail))));
}

/// A word with one space behind it.
proof fn lemma_word_and_space(a: Seq<char>)
    requires
        is_word(a),
    ensures
        text::trimmed(a + seq![' ']) == a,
        text::trimmed(seq![' '] + a) == a,
        forall|c: char| c != ' ' && !a.contains(c) ==> !#[trigger] (a + seq![' ']).contains(c),
{
    let n = a.len() as int;
    let s = a + seq![' '];
    let t = seq![' '] + a;
    assert(is_plain(a[0]) && is_plain(a[n - 1]));
    assert(s[0] == a[0] && s[n - 1] == a[n - 1] && s[n] == ' ');
    text::lemma_trimmed_is(s, 0, n);
    assert(s.subrange(0, n) =~= a);
    assert(t[0] == ' ' && t[1] == a[0] && t[n] == a[n - 1]);
    text::lemma_trimmed_is(t, 1, n + 1);
    assert(t.subrange(1, n + 1) =~= a);
    assert forall|c: char| c != ' ' && !a.contains(c) implies !#[trigger] s.contains(c) by {
        if s.contains(c) {
            let j = s.index_of(c);
            if j < n {
                assert(a[j] == c);
            }
        }
    }
}

/// `pkg { thread=cpus }` is a rule for a thread.
#[verifier::rlimit(50)]
proof fn lemma_inline_rule(pkg: Seq<char>, thread: Seq<char>, cpus: Seq<char>)
    requires
        is_word(pkg),
        is_word(thread),
        is_word(cpus),
    ensures
        grammar::one_line_rule(inline_line(pkg, thread, cpus)) == Some((pkg, thread, cpus)),
        text::first(inline_line(pkg, thread, cpus), '=') == pkg.len() + 3 + thread.len(),
        inline_line(pkg, thread, cpus)[pkg.len() as int + 1] == '{',
{
    let s = inline_line(pkg, thread, cpus);
    let front = pkg + seq![' '];
    let inner = seq![' '] + thread;
    let left = front + seq!['{'] + inner;
    let right = cpus + seq![' ', '}'];
    lemma_word(pkg);
    lemma_word(thread);
    lemma_word(cpus);
    lemma_word_and_space(pkg);
    lemma_word_and_space(thread);
    lemma_word_and_space(cpus);
    assert(s =~= left + seq!['='] + right);
    assert(!left.contains('=')) by {
        if left.contains('=') {
            let j = left.index_of('=');
            if j < pkg.len() {
                assert(pkg[j] == '=');
            } else if pkg.len() + 3 <= j {
                assert(thread[j - pkg.len() - 3] == '=');
            }
        }
    }
    lemma_first_in(left, '=', right);
    assert(left.last() == thread.last());
    assert(text::trimmed_end(left) == left);
    lemma_first_in(front, '{', inner);
    assert(right[0] == cpus[0]);
    text::lemma_trimmed_id(right);
    assert(right.drop_last() =~= cpus + seq![' ']);
}

/// `pkg { thread=cpus }` outside any block is a rule for a thread.
#[verifier::rlimit(50)]
pub(crate) proof fn lemma_outer_inline(pkg: Seq<char>, thread: Seq<char>, cpus: Seq<char>)
    requires
        is_word(pkg),
        is_word(thread),
        is_word(cpus),
    ensures
        ({
            let s = inline_line(pkg, thread, cpus);
            &&& grammar::outer(s) == grammar::OuterView::Single { pkg, thread, cpus, open: false }
            &&& text::trimmed(s) == s
            &&& grammar::uncommented(s) == s
            &&& !grammar::is_blank_or_comment(s)
            &&& !refresh_lines::is_global_line(s)
            &&& s.contains('{')
        }),
{
    let s = inline_line(pkg, thread, cpus);
    lemma_word(pkg);
    lemma_word(thread);
    lemma_word(cpus);
    lemma_inline_rule(pkg, thread, cpus);
    assert(s[0] == pkg[0]);
    assert(s.last() == '}');
    let n1 = pkg.len() as int;
    let n2 = n1 + 3 + thread.len();
    let n3 = n2 + 1 + cpus.len();
    assert forall|j: int| 0 <= j < s.len() implies #[trigger] s[j] != '#' && s[j] != '/' by {
        if j < n1 {
            assert(s[j] == pkg[j]);
            assert(is_plain(pkg[j]));
        } else if n1 + 3 <= j < n2 {
            assert(s[j] == thread[j - n1 - 3]);
            assert(is_plain(thread[j - n1 - 3]));
        } else if n2 < j < n3 {
            assert(s[j] == cpus[j - n2 - 1]);
            assert(is_plain(cpus[j - n2 - 1]));
        }
    }
    if s.contains('#') {
        assert(s[s.index_of('#')] == '#');
    }
    if s.contains('/') {
        assert(s[s.index_of('/')] == '/');
    }
    lemma_clean(s);
    assert(s[n1 + 1] == '{');
    assert(grammar::outer(s) == grammar::OuterView::Single { pkg, thread, cpus, open: false });
    assert(!refresh_lines::is_global_line(s)) by {
        let key = s.take(n2);
        assert(key[0] == pkg[0] && key[n2 - 1] == thread.last());
        text::lemma_trimmed_id(key);
        assert(key[n1 + 1] == '{');
        reveal_strlit("refresh_timeout");
        reveal_strlit("refresh_active");
        reveal_strlit("refresh_idle");
        assert(key.contains('{'));
        assert(!refresh_lines::is_global_key(key));
    }
}

/// `pkg { thread=cpus }` means the same as `pkg{thread}=cpus`.
pub proof fn blocks_on_one_line(
    st: LoadView,
    pkg: Seq<char>,
    thread: Seq<char>,
    cpus: Seq<char>,
    topo: CpuTopology,
)
    requires
        is_between(st),
        is_word(pkg),
        is_word(thread),
        is_word(cpus),
    ensures
        config::load_step(st, inline_line(pkg, thread, cpus), topo) == taken(
            st,
            config::rule_for(topo, pkg, thread, cpus),
        ),
{
    lemma_outer_inline(pkg, thread, cpus);
    assert(st.no_pending() =~= st);
    lemma_taken(st, topo, pkg, thread, cpus);
}

/// A package alone on its line, or with `=` behind it, waits for its block, and
/// a `{` on the next line opens it.
#[verifier::rlimit(50)]
pub proof fn blocks_may_open_on_the_next_line(st: LoadView, pkg: Seq<char>, topo: CpuTopology)
    requires
        is_between(st),
        is_word(pkg),
        !refresh_lines::is_global_key(pkg),
    ensures
        config::load_step(config::load_step(st, pkg, topo), seq!['{'], topo) == config::load_step(
            st,
            open_line(pkg),
            topo,
        ),
        config::load_step(config::load_step(st, pkg + seq!['='], topo), seq!['{'], topo)
            == config::load_step(st, open_line(pkg), topo),
{
    lemma_word(pkg);
    lemma_open_line(st, pkg, topo);
    lemma_clean(pkg);
    lemma_first_none(pkg, '=');
    if pkg[0] == '}' {
        assert(pkg.contains(pkg[0]));
    }
    assert(grammar::outer(pkg) == grammar::OuterView::Pending { pkg });
    let s = pkg + seq!['='];
    assert(s[0] == pkg[0]);
    assert forall|c: char| s.contains(c) implies pkg.contains(c) || c == '=' by {
        let j = s.index_of(c);
        if j < pkg.len() {
            assert(pkg[j] == c);
        }
    }
    lemma_clean(s);
    assert(s =~= pkg + seq!['='] + Seq::<char>::empty());
    lemma_first_in(pkg, '=', Seq::<char>::empty());
    lemma_first_none(pkg, '{');
    assert(text::trimmed_end(pkg) == pkg);
    assert(text::trimmed(Seq::<char>::empty()).len() == 0);
    assert(grammar::outer(s) == grammar::OuterView::Pending { pkg });
    let w = config::load_step(st, pkg, topo);
    assert(w == LoadView { pending: pkg, ..st });
    assert(config::load_step(st, s, topo) == w);
    let o = seq!['{'];
    if o.contains('#') || o.contains('/') || o.contains('=') {
        assert(o[0] == '{');
    }
    lemma_clean(o);
    lemma_first_none(o, '=');
    assert(o.drop_last() =~= Seq::<char>::empty());
    let none = Seq::<char>::empty();
    assert(text::trimmed_end(none) =~= none);
    lemma_first_none(none, '=');
    assert(grammar::outer(o) == grammar::OuterView::BareOpen { pkg: none });
    assert(st.pending =~= Seq::<char>::empty());
}

/// A `}` outside any block makes no sense, and changes nothing else.
pub proof fn stray_ends_are_failures(st: LoadView, topo: CpuTopology)
    requires
        is_between(st),
    ensures
        config::load_step(st, close_line(), topo) == (LoadView { fails: st.fails + 1, ..st }),
{
    let s = close_line();
    if s.contains('#') || s.contains('/') || s.contains('=') {
        assert(s[0] == '}');
    }
    lemma_clean(s);
    lemma_first_none(s, '=');
    assert(s.skip(1).len() == 0);
    assert(grammar::outer(s) == grammar::OuterView::Junk);
    assert(st.pending =~= Seq::<char>::empty());
}

/// White space around a line makes no difference.
pub proof fn indentation_is_ignored(st: LoadView, line: Seq<char>, topo: CpuTopology)
    ensures
        config::load_step(st, line, topo) == config::load_step(st, text::trimmed(line), topo),
{
    text::trimming_twice(line);
}

/// A comment behind a line makes no difference.
#[verifier::rlimit(50)]
pub proof fn comments_behind_lines_are_ignored(
    st: LoadView,
    s: Seq<char>,
    note: Seq<char>,
    topo: CpuTopology,
)
    requires
        s.len() > 0,
        !text::is_space(s[0]),
        !text::is_space(s.last()),
        !s.contains('#'),
        !s.contains('/'),
        !note.contains('}'),
    ensures
        config::load_step(st, s + seq![' ', '#'] + note, topo) == config::load_step(st, s, topo),
{
    let line = s + seq![' ', '#'] + note;
    let n = s.len() as int;
    lemma_clean(s);
    let (lo, hi) = text::lemma_core(line);
    let p = text::trimmed(line);
    assert(line[0] == s[0]);
    assert(line[n + 1] == '#');
    assert(lo == 0);
    assert(hi >= n + 2) by {
        if hi <= n + 1 {
            assert(text::is_space(line[n + 1]));
        }
    }
    assert(p =~= line.take(hi));
    text::trimming_twice(line);
    assert forall|j: int| 0 <= j < n + 1 implies !grammar::comment_here(p, j) by {
        assert(p.skip(j)[0] == p[j]);
        if j < n {
            assert(p[j] == s[j]);
            assert(s.contains(s[j]));
        }
    }
    assert(p.skip(n + 1)[0] == '#');
    assert(text::is_space(p[n]));
    assert(grammar::comment_here(p, n + 1));
    lemma_comment_at(p, 0, n + 1);
    let head = p.take(n + 1);
    assert(head.take(n) =~= s);
    text::lemma_trimmed_end(head, n);
    assert(text::trimmed_end(s) == s);
    assert(grammar::uncommented(p) == s);
    assert(p[0] == s[0]);
    assert(!grammar::is_blank_or_comment(p)) by {
        if p[0] == '#' || p[0] == '/' {
            assert(s.contains(s[0]));
        }
    }
    assert(grammar::outer(p) == grammar::outer(s));
    assert(grammar::block_rule(p) == grammar::block_rule(s));
    assert(refresh_lines::setting(p) == refresh_lines::setting(s));
    assert(grammar::closes_block(p) == grammar::closes_block(s)) by {
        if n > 1 {
            assert(p[1] == s[1]);
            let a = p.skip(1);
            let b = s.skip(1);
            assert(a[0] == b[0]);
            if s[1] == '#' || s[1] == '/' {
                assert(s.contains(s[1]));
            }
        } else {
            assert(p.skip(1)[0] == ' ');
        }
    }
    assert(p.contains('}') == s.contains('}')) by {
        if s.contains('}') {
            assert(p[s.index_of('}')] == '}');
        }
        if p.contains('}') {
            let j = p.index_of('}');
            assert(line[j] == '}');
            if j < n {
                assert(s[j] == '}');
            } else if j >= n + 2 {
                assert(note[j - n - 2] == '}');
            }
        }
    }
}

pub(crate) proof fn lemma_comment_at(s: Seq<char>, i: int, k: int)
    requires
        0 <= i <= k < s.len(),
        forall|j: int| i <= j < k ==> !grammar::comment_here(s, j),
        grammar::comment_here(s, k),
    ensures
        grammar::comment_from(s, i) == k,
    decreases k - i,
{
    if i < k {
        assert(!grammar::comment_here(s, i));
        lemma_comment_at(s, i + 1, k);
    }
}

/// A file is read line by line from its start; a block that is still open at
/// its end, or a package that still waits for one, is a failure more.
pub proof fn files_are_read_line_by_line(lines: Seq<Seq<char>>, topo: CpuTopology)
    requires
        forall|i: int| 0 <= i < lines.len() ==> text::is_plain_line(#[trigger] lines[i]),
    ensures
        ({
            let blank = LoadView {
                rules: seq![],
                fails: 0,
                globals: (
                    30,
                    refresh_lines::mode_code("120"@),
                    refresh_lines::mode_code("60"@),
                ),
                apps: Map::empty(),
                cur: seq![],
                pending: seq![],
                in_block: false,
            };
            let end = read_on(blank, lines, lines.len(), topo);
            let all = config::load_all(text::terminated(lines), topo);
            &&& all.rules == end.rules
            &&& all.globals == end.globals
            &&& all.apps == end.apps
            &&& all.fails == end.fails + if end.in_block || end.pending.len() > 0 {
                1nat
            } else {
                0nat
            }
        }),
{
    reveal_strlit("120");
    reveal_strlit("90");
    reveal_strlit("60");
    assert("60"@.len() == 2 && "90"@.len() == 2 && "120"@.len() == 3);
    assert("60"@[0] != "90"@[0]);
    text::written_lines_read_back(lines);
    lemma_read_on_start(lines, lines.len(), topo);
}

pub(crate) proof fn lemma_read_on_start(lines: Seq<Seq<char>>, n: nat, topo: CpuTopology)
    ensures
        read_on(LoadView::start(), lines, n, topo) == config::load_after(lines, n, topo),
    decreases n,
{
    if n > 0 {
        lemma_read_on_start(lines, (n - 1) as nat, topo);
    }
}

/// A line adds at most one rule, at the end, and takes none away. In a block the
/// rule is one of the block's package.
pub proof fn rules_are_added_at_the_end(st: LoadView, line: Seq<char>, topo: CpuTopology)
    ensures
        ({
            let next = config::load_step(st, line, topo);
            &&& next.rules == st.rules || (next.rules.len() == st.rules.len() + 1
                && next.rules.drop_last() == st.rules && (st.in_block ==> next.rules.last().pkg
                == st.cur && next.rules.last().thread.len() > 0))
            &&& next.fails >= st.fails
        }),
{
    let next = config::load_step(st, line, topo);
    if next.rules.len() > st.rules.len() {
        assert(next.rules.drop_last() =~= st.rules);
    }
}

/// One of the rates that can be set, as text.
pub open spec fn is_rate_text(s: Seq<char>) -> bool {
    s == "120"@ || s == "90"@ || s == "60"@
}

pub(crate) proof fn lemma_rate_text(s: Seq<char>)
    requires
        is_rate_text(s),
    ensures
        is_word(s),
        refresh_edit::has_no_space(s),
        !s.contains('-'),
        text::trimmed(s) == s,
{
    reveal_strlit("120");
    reveal_strlit("90");
    reveal_strlit("60");
    assert forall|i: int| 0 <= i < s.len() implies is_plain(#[trigger] s[i]) && s[i] != '-' by {}
    assert(is_plain(s[0]) && is_plain(s[s.len() - 1]));
    text::lemma_trimmed_id(s);
    if s.contains('-') {
        assert(s[s.index_of('-')] == '-');
    }
}

/// `pkg=cpus` outside any block is a rule, whatever its value.
pub(crate) proof fn lemma_outer_rule(pkg: Seq<char>, cpus: Seq<char>)
    requires
        is_word(pkg),
        is_word(cpus),
    ensures
        grammar::outer(package_line(pkg, cpus)) == (grammar::OuterView::Rule {
            pkg,
            cpus,
            open: false,
        }),
        text::trimmed(package_line(pkg, cpus)) == package_line(pkg, cpus),
        !grammar::is_blank_or_comment(package_line(pkg, cpus)),
        refresh_lines::setting(package_line(pkg, cpus)) == Some((pkg, cpus)),
{
    let s = package_line(pkg, cpus);
    lemma_word(pkg);
    lemma_word(cpus);
    assert(s[0] == pkg[0]);
    assert(s.last() == cpus.last());
    assert forall|c: char| s.contains(c) implies pkg.contains(c) || cpus.contains(c) || c == '=' by {
        let j = s.index_of(c);
        if j < pkg.len() {
            assert(pkg[j] == c);
        } else if pkg.len() < j {
            assert(cpus[j - pkg.len() - 1] == c);
        }
    }
    lemma_clean(s);
    lemma_first_in(pkg, '=', cpus);
    lemma_first_none(pkg, '{');
    assert(text::trimmed_end(pkg) == pkg);
    if s[0] == '}' {
        assert(pkg.contains(pkg[0]));
    }
}

#[verifier::rlimit(50)]
pub(crate) proof fn lemma_app_words(
    pkg: Seq<char>,
    timeout: i32,
    active: Seq<char>,
    idle: Seq<char>,
)
    requires
        is_word(pkg),
        !refresh_lines::is_global_key(pkg),
        timeout >= 0,
        is_rate_text(active),
        is_rate_text(idle),
    ensures
        ({
            let l = refresh_edit::app_line(pkg, timeout as int, active, idle);
            let v = l.skip(pkg.len() as int + 1);
            &&& l == package_line(pkg, v)
            &&& is_word(v)
            &&& text::starts(v, "refresh-"@)
            &&& refresh_lines::app_setting(v) == Some(
                refresh_edit::app_triple(timeout, active, idle),
            )
        }),
{
    lemma_word(pkg);
    lemma_rate_text(active);
    lemma_rate_text(idle);
    assert forall|i: int| 0 <= i < pkg.len() implies !text::is_space(#[trigger] pkg[i]) by {
        assert(is_plain(pkg[i]));
    }
    refresh_edit::lemma_app_line(pkg, timeout, active, idle);
    let l = refresh_edit::app_line(pkg, timeout as int, active, idle);
    let v = l.skip(pkg.len() as int + 1);
    let d = number::dec_int(timeout as int);
    number::dec_reads_back(timeout as nat);
    reveal_strlit("=refresh-");
    reveal_strlit("refresh-");
    let a = "refresh-"@;
    let w = a + d + seq!['-'] + active + seq!['-'] + idle;
    assert("=refresh-"@ =~= seq!['='] + a);
    assert(v =~= w);
    assert forall|i: int| 0 <= i < v.len() implies is_plain(#[trigger] v[i]) by {
        let n1 = 8 + d.len();
        let n2 = n1 + 1 + active.len();
        if i < 8 {
            assert(v[i] == a[i]);
        } else if i < n1 {
            assert(v[i] == d[i - 8]);
            assert(number::is_digit(d[i - 8]));
        } else if n1 < i < n2 {
            assert(v[i] == active[i - n1 - 1]);
            assert(is_plain(active[i - n1 - 1]));
        } else if n2 < i {
            assert(v[i] == idle[i - n2 - 1]);
            assert(is_plain(idle[i - n2 - 1]));
        }
    }
}

/// Between blocks, `pkg=refresh-<seconds>-<active>-<idle>` sets the rates of the
/// application, in place of what was set before, and nothing else.
pub proof fn application_lines_set_rates(
    st: LoadView,
    pkg: Seq<char>,
    timeout: i32,
    active: Seq<char>,
    idle: Seq<char>,
    topo: CpuTopology,
)
    requires
        is_between(st),
        is_word(pkg),
        !refresh_lines::is_global_key(pkg),
        timeout >= 1,
        is_rate_text(active),
        is_rate_text(idle),
    ensures
        config::load_step(
            st,
            refresh_edit::app_line(pkg, timeout as int, active, idle),
            topo,
        ) == (LoadView {
            apps: st.apps.insert(
                pkg,
                (timeout, refresh_lines::mode_code(active), refresh_lines::mode_code(idle)),
            ),
            ..st
        }),
{
    let l = refresh_edit::app_line(pkg, timeout as int, active, idle);
    let v = l.skip(pkg.len() as int + 1);
    lemma_app_words(pkg, timeout, active, idle);
    lemma_outer_rule(pkg, v);
    assert(st.no_pending() =~= st);
}

/// Anywhere in the file, the three global keys set what they name, and nothing
/// else.
pub proof fn global_lines_set_rates(
    st: LoadView,
    timeout: i32,
    rate: Seq<char>,
    topo: CpuTopology,
)
    requires
        timeout >= 1,
        is_rate_text(rate),
    ensures
        config::load_step(
            st,
            package_line("refresh_timeout"@, number::dec(timeout as nat)),
            topo,
        ) == (LoadView { globals: (timeout, st.globals.1, st.globals.2), ..st }),
        config::load_step(st, package_line("refresh_active"@, rate), topo) == (LoadView {
            globals: (st.globals.0, refresh_lines::mode_code(rate), st.globals.2),
            ..st
        }),
        config::load_step(st, package_line("refresh_idle"@, rate), topo) == (LoadView {
            globals: (st.globals.0, st.globals.1, refresh_lines::mode_code(rate)),
            ..st
        }),
{
    refresh_edit::lemma_global_keys();
    reveal_strlit("refresh_timeout");
    reveal_strlit("refresh_active");
    reveal_strlit("refresh_idle");
    let d = number::dec(timeout as nat);
    number::dec_reads_back(timeout as nat);
    number::signed_reads_dec_int(timeout as int, i32::MIN as int, i32::MAX as int);
    assert forall|i: int| 0 <= i < d.len() implies is_plain(#[trigger] d[i]) by {
        assert(number::is_digit(d[i]));
    }
    lemma_rate_text(rate);
    assert(is_word("refresh_timeout"@));
    assert(is_word("refresh_active"@));
    assert(is_word("refresh_idle"@));
    lemma_outer_rule("refresh_timeout"@, d);
    lemma_outer_rule("refresh_active"@, rate);
    lemma_outer_rule("refresh_idle"@, rate);
}

/// A line that starts with `#` or `//`, white space before it apart, is a
/// comment, and a blank line is nothing; other lines are neither.
#[verifier::rlimit(50)]
pub proof fn comments_start_with_their_marks(x: Seq<char>, c: char)
    ensures
        grammar::is_blank_or_comment(seq!['#'] + x),
        grammar::is_blank_or_comment(seq!['/', '/'] + x),
        grammar::is_blank_or_comment(seq![' ', ' ', '#'] + x),
        grammar::is_blank_or_comment(seq![]),
        grammar::is_blank_or_comment(seq![' ', '\t']),
        !text::is_space(c) && c != '#' && c != '/' ==> !grammar::is_blank_or_comment(seq![c] + x),
{
    let a = seq!['#'] + x;
    let (lo, hi) = text::lemma_core(a);
    assert(a[0] == '#');
    assert(lo == 0);
    assert(hi > 0) by {
        if hi == 0 {
            assert(text::is_space(a[0]));
        }
    }
    assert(text::trimmed(a)[0] == '#');
    let b = seq!['/', '/'] + x;
    let (lo2, hi2) = text::lemma_core(b);
    assert(b[0] == '/' && b[1] == '/');
    assert(lo2 == 0);
    assert(hi2 > 1) by {
        if hi2 <= 1 {
            assert(text::is_space(b[1]));
        }
    }
    assert(text::trimmed(b)[0] == '/' && text::trimmed(b)[1] == '/');
    let d = seq![' ', ' ', '#'] + x;
    let (lo3, hi3) = text::lemma_core(d);
    assert(d[0] == ' ' && d[1] == ' ' && d[2] == '#');
    assert(lo3 == 2) by {
        if lo3 > 2 {
            assert(text::is_space(d[2]));
        }
        if lo3 < 2 && lo3 < hi3 {
            assert(!text::is_space(d[lo3]));
        }
        if lo3 >= hi3 {
            assert(text::is_space(d[2]));
        }
    }
    assert(hi3 > 2) by {
        if hi3 <= 2 {
            assert(text::is_space(d[2]));
        }
    }
    assert(text::trimmed(d)[0] == '#');
    let none = Seq::<char>::empty();
    assert(text::trimmed(none).len() == 0);
    let w = seq![' ', '\t'];
    let (lo4, hi4) = text::lemma_core(w);
    assert(w[0] == ' ' && w[1] == '\t');
    if lo4 < hi4 {
        assert(!text::is_space(w[lo4]));
    }
    if !text::is_space(c) && c != '#' && c != '/' {
        let e = seq![c] + x;
        let (lo5, hi5) = text::lemma_core(e);
        assert(e[0] == c);
        assert(lo5 == 0);
        assert(hi5 > 0) by {
            if hi5 == 0 {
                assert(text::is_space(e[0]));
            }
        }
        assert(text::trimmed(e)[0] == c);
    }
}

/// `pkg{thread}=cpus {` outside any block is a rule for a thread and opens a
/// block.
#[verifier::rlimit(50)]
proof fn lemma_outer_compact_open(pkg: Seq<char>, thread: Seq<char>, cpus: Seq<char>)
    requires
        is_word(pkg),
        is_word(thread),
        is_word(cpus),
    ensures
        ({
            let s = compact_line(pkg, thread, cpus) + seq![' ', '{'];
            &&& grammar::outer(s) == grammar::OuterView::Single { pkg, thread, cpus, open: true }
            &&& text::trimmed(s) == s
            &&& grammar::uncommented(s) == s
            &&& !grammar::is_blank_or_comment(s)
        }),
{
    let body = compact_line(pkg, thread, cpus);
    let s = body + seq![' ', '{'];
    lemma_word(pkg);
    lemma_word(cpus);
    lemma_outer_compact(pkg, thread, cpus);
    let n = body.len() as int;
    assert(s[0] == body[0] && body[0] == pkg[0]);
    assert(s.last() == '{');
    assert(!s.contains('#')) by {
        if s.contains('#') {
            let j = s.index_of('#');
            if j < n {
                assert(body[j] == '#');
            }
        }
    }
    assert(!s.contains('/')) by {
        if s.contains('/') {
            let j = s.index_of('/');
            if j < n {
                assert(body[j] == '/');
            }
        }
    }
    lemma_clean(s);
    let cut = s.drop_last();
    assert(cut.take(n) =~= body);
    text::lemma_trimmed_end(cut, n);
    assert(body.last() == cpus.last());
    assert(text::trimmed_end(body) == body);
}

/// Such a line sets nothing else.
#[verifier::rlimit(50)]
proof fn lemma_compact_open_is_no_setting(pkg: Seq<char>, thread: Seq<char>, cpus: Seq<char>)
    requires
        is_word(pkg),
        is_word(thread),
        is_word(cpus),
    ensures
        !refresh_lines::is_global_line(compact_line(pkg, thread, cpus) + seq![' ', '{']),
{
    lemma_outer_compact_open(pkg, thread, cpus);
    lemma_word(pkg);
    lemma_word(thread);
    let s = compact_line(pkg, thread, cpus) + seq![' ', '{'];
    let left = pkg + seq!['{'] + thread + seq!['}'];
    assert(s =~= left + seq!['='] + (cpus + seq![' ', '{']));
    assert(!left.contains('=')) by {
        if left.contains('=') {
            let j = left.index_of('=');
            if j < pkg.len() {
                assert(pkg[j] == '=');
            } else if pkg.len() < j < pkg.len() + 1 + thread.len() {
                assert(thread[j - pkg.len() - 1] == '=');
            }
        }
    }
    lemma_first_in(left, '=', cpus + seq![' ', '{']);
    assert(left[0] == pkg[0] && left.last() == '}');
    text::lemma_trimmed_id(left);
    assert(left[pkg.len() as int] == '{');
    assert(left.contains('{'));
    reveal_strlit("refresh_timeout");
    reveal_strlit("refresh_active");
    reveal_strlit("refresh_idle");
    assert(!refresh_lines::is_global_key(left));
}

/// `pkg{thread}=cpus {` sets the rule for the thread and opens a block of the
/// package.
pub proof fn compact_lines_may_open_blocks(
    st: LoadView,
    pkg: Seq<char>,
    thread: Seq<char>,
    cpus: Seq<char>,
    topo: CpuTopology,
)
    requires
        is_between(st),
        is_word(pkg),
        is_word(thread),
        is_word(cpus),
    ensures
        config::load_step(st, compact_line(pkg, thread, cpus) + seq![' ', '{'], topo) == (LoadView {
            in_block: true,
            cur: pkg,
            ..taken(st, config::rule_for(topo, pkg, thread, cpus))
        }),
{
    lemma_outer_compact_open(pkg, thread, cpus);
    lemma_compact_open_is_no_setting(pkg, thread, cpus);
    assert(st.no_pending() =~= st);
    lemma_taken(st, topo, pkg, thread, cpus);
}

/// In a block, a `}` right behind the rule ends the block, too, and what stands
/// behind the `}` does not count.
#[verifier::rlimit(50)]
pub proof fn closing_braces_may_touch_the_rule(
    st: LoadView,
    thread: Seq<char>,
    cpus: Seq<char>,
    junk: Seq<char>,
    topo: CpuTopology,
)
    requires
        st.in_block,
        is_word(thread),
        is_word(cpus),
        !refresh_lines::is_global_key(thread),
        forall|i: int| 0 <= i < junk.len() ==> is_plain(#[trigger] junk[i]),
    ensures
        config::load_step(st, thread + seq!['='] + cpus + seq!['}'] + junk, topo) == (LoadView {
            in_block: false,
            cur: seq![],
            ..taken(st, config::rule_for(topo, st.cur, thread, cpus))
        }),
{
    let tail = cpus + seq!['}'] + junk;
    let s = thread + seq!['='] + tail;
    assert(s =~= thread + seq!['='] + cpus + seq!['}'] + junk);
    lemma_word(thread);
    lemma_word(cpus);
    assert(s[0] == thread[0]);
    assert(!text::is_space(s.last())) by {
        if junk.len() > 0 {
            assert(s.last() == junk[junk.len() - 1]);
            assert(is_plain(junk[junk.len() - 1]));
        } else {
            assert(s.last() == '}');
        }
    }
    assert forall|c: char| s.contains(c) implies thread.contains(c) || cpus.contains(c) || c == '='
        || c == '}' || is_plain(c) by {
        let j = s.index_of(c);
        let n1 = thread.len() as int;
        let n2 = n1 + 1 + cpus.len();
        if j < n1 {
            assert(thread[j] == c);
        } else if n1 < j < n2 {
            assert(cpus[j - n1 - 1] == c);
        } else if n2 < j {
            assert(junk[j - n2 - 1] == c);
        }
    }
    lemma_clean(s);
    lemma_first_in(thread, '=', tail);
    lemma_first_in(cpus, '}', junk);
    text::lemma_first(tail, '}');
    if s[0] == '}' {
        assert(thread.contains(thread[0]));
    }
    assert(grammar::block_rule(s) == Some((thread, cpus, true)));
    assert(refresh_lines::setting(s) == Some((thread, text::trimmed(tail))));
    lemma_taken(st, topo, st.cur, thread, cpus);
}

/// In a block, a line without `=` makes no sense; the block goes on.
pub proof fn blocks_hold_rules_only(st: LoadView, w: Seq<char>, topo: CpuTopology)
    requires
        st.in_block,
        is_word(w),
    ensures
        config::load_step(st, w, topo) == (LoadView { fails: st.fails + 1, ..st }),
{
    lemma_word(w);
    lemma_clean(w);
    lemma_first_none(w, '=');
    if w[0] == '}' {
        assert(w.contains(w[0]));
    }
}

/// A package that waits for a block in vain is a failure; the rule behind it is
/// read all the same.
#[verifier::rlimit(50)]
pub proof fn waiting_in_vain_is_a_failure(
    st: LoadView,
    pkg: Seq<char>,
    cpus: Seq<char>,
    topo: CpuTopology,
)
    requires
        !st.in_block,
        st.cur.len() == 0,
        st.pending.len() > 0,
        is_word(pkg),
        is_word(cpus),
        !refresh_lines::is_global_key(pkg),
        !text::starts(cpus, "refresh-"@),
    ensures
        config::load_step(st, package_line(pkg, cpus), topo) == taken(
            LoadView { fails: st.fails + 1, pending: seq![], ..st },
            config::rule_for(topo, pkg, seq![], cpus),
        ),
        config::load_step(st, pkg, topo) == (LoadView { fails: st.fails + 1, pending: pkg, ..st }),
        config::load_step(st, open_line(pkg), topo) == (LoadView {
            fails: st.fails + 1,
            pending: seq![],
            in_block: true,
            cur: pkg,
            ..st
        }),
{
    lemma_outer_rule(pkg, cpus);
    lemma_taken(
        LoadView { fails: st.fails + 1, pending: seq![], ..st },
        topo,
        pkg,
        seq![],
        cpus,
    );
    lemma_word(pkg);
    lemma_clean(pkg);
    lemma_first_none(pkg, '=');
    if pkg[0] == '}' {
        assert(pkg.contains(pkg[0]));
    }
    assert(grammar::outer(pkg) == grammar::OuterView::Pending { pkg });
    let s = open_line(pkg);
    assert(s[0] == pkg[0]);
    assert forall|c: char| s.contains(c) implies pkg.contains(c) || c == ' ' || c == '{' by {
        let j = s.index_of(c);
        if j < pkg.len() {
            assert(pkg[j] == c);
        }
    }
    lemma_clean(s);
    lemma_first_none(s, '=');
    let cut = s.drop_last();
    assert(cut.take(pkg.len() as int) =~= pkg);
    text::lemma_trimmed_end(cut, pkg.len() as int);
    assert(text::trimmed_end(pkg) == pkg);
    lemma_first_none(pkg, '=');
    assert(grammar::outer(s) == grammar::OuterView::BareOpen { pkg });
}

/// A configuration holds what was read: the rules in their order, the global
/// settings each in its place, and those of the applications.
pub proof fn configurations_hold_what_was_read(
    cfg: config::AppConfig,
    content: Seq<char>,
    topo: CpuTopology,
    i: int,
)
    requires
        cfg.holds(config::load_all(content, topo), topo),
        0 <= i < cfg.rules@.len(),
    ensures
        ({
            let st = config::load_all(content, topo);
            &&& cfg.refresh_timeout == st.globals.0
            &&& cfg.refresh_active == st.globals.1
            &&& cfg.refresh_idle == st.globals.2
            &&& cfg.app_refresh_configs@ == st.apps
            &&& cfg.rules@.len() == st.rules.len()
            &&& cfg.rules@[i].pkg@ == st.rules[i].pkg
            &&& cfg.rules@[i].thread@ == st.rules[i].thread
            &&& cfg.rules@[i].cpus@ == st.rules[i].cpus
            &&& cfg.rules@[i].util_min == st.rules[i].util_min
            &&& cfg.rules@[i].util_max == st.rules[i].util_max
        }),
{
    assert(config::rule_views(cfg.rules@)[i] == cfg.rules@[i]@);
}

/// Reading the refresh rates alone gives what reading the whole file gives of
/// them: lines with settings set the same, and CPU rules nothing.
#[verifier::rlimit(50)]
pub proof fn rates_are_read_alike(
    st: LoadView,
    pkg: Seq<char>,
    cpus: Seq<char>,
    timeout: i32,
    rate: Seq<char>,
    topo: CpuTopology,
)
    requires
        is_between(st),
        is_word(pkg),
        !refresh_lines::is_global_key(pkg),
        is_word(cpus),
        !text::starts(cpus, "refresh-"@),
        timeout >= 1,
        is_rate_text(rate),
    ensures
        ({
            let v = refresh_lines::RefreshView { globals: st.globals, apps: st.apps };
            let app = refresh_edit::app_line(pkg, timeout as int, rate, rate);
            let global = package_line("refresh_active"@, rate);
            let rule = package_line(pkg, cpus);
            &&& refresh_lines::refresh_step(v, app).globals == config::load_step(
                st,
                app,
                topo,
            ).globals
            &&& refresh_lines::refresh_step(v, app).apps == config::load_step(st, app, topo).apps
            &&& refresh_lines::refresh_step(v, global).globals == config::load_step(
                st,
                global,
                topo,
            ).globals
            &&& refresh_lines::refresh_step(v, global).apps == st.apps
            &&& refresh_lines::refresh_step(v, rule) == v
            &&& config::load_step(st, rule, topo).globals == st.globals
            &&& config::load_step(st, rule, topo).apps == st.apps
        }),
{
    lemma_word(pkg);
    lemma_rate_text(rate);
    assert forall|i: int| 0 <= i < pkg.len() implies !text::is_space(#[trigger] pkg[i]) by {
        assert(is_plain(pkg[i]));
    }
    refresh_edit::lemma_app_line(pkg, timeout, rate, rate);
    application_lines_set_rates(st, pkg, timeout, rate, rate, topo);
    global_lines_set_rates(st, timeout, rate, topo);
    package_lines_set_rules(st, pkg, cpus, topo);
    lemma_outer_rule(pkg, cpus);
    refresh_edit::lemma_global_keys();
    reveal_strlit("refresh_active");
    assert(is_word("refresh_active"@));
    lemma_outer_rule("refresh_active"@, rate);
}

/// A timeout that is no number of seconds from one on is passed over; a rate
/// that is none of the three counts as 60 Hz.
pub proof fn other_settings_have_their_meaning(
    st: LoadView,
    w: Seq<char>,
    topo: CpuTopology,
)
    requires
        is_word(w),
        !('0' <= w[0] <= '9') && w[0] != '+' && w[0] != '-',
    ensures
        config::load_step(st, package_line("refresh_timeout"@, w), topo) == st,
        config::load_step(st, package_line("refresh_timeout"@, seq!['0']), topo) == st,
        refresh_lines::mode_code(w) == refresh_lines::mode_code("60"@),
{
    refresh_edit::lemma_global_keys();
    reveal_strlit("refresh_timeout");
    reveal_strlit("refresh_active");
    reveal_strlit("refresh_idle");
    reveal_strlit("120");
    reveal_strlit("90");
    reveal_strlit("60");
    assert("120"@[0] == '1' && "90"@[0] == '9' && "60"@[0] == '6');
    assert("60"@.len() == 2 && "120"@.len() == 3);
    assert(is_word("refresh_timeout"@));
    lemma_outer_rule("refresh_timeout"@, w);
    let d = number::without_plus(w);
    assert(d == w);
    if number::all_digits(w) {
        assert(number::is_digit(w[0]));
    }
    let z = seq!['0'];
    assert(is_word(z));
    lemma_outer_rule("refresh_timeout"@, z);
    assert(number::dec(0) =~= z);
    number::signed_reads_dec_int(0, i32::MIN as int, i32::MAX as int);
    assert(st =~= LoadView { globals: st.globals, ..st });
}

/// Specifications that stand for the same CPUs make the same rule: a name of a
/// tier of cores can be written in place of its ranges.
pub proof fn same_cpus_same_rule(
    topo: CpuTopology,
    pkg: Seq<char>,
    thread: Seq<char>,
    a: Seq<char>,
    b: Seq<char>,
)
    requires
        grammar::has_spec_shape(a),
        grammar::has_spec_shape(b),
        cpuset::spec_cpus(a, topo) == cpuset::spec_cpus(b, topo),
    ensures
        config::rule_for(topo, pkg, thread, a) == config::rule_for(topo, pkg, thread, b),
{
    grammar::specs_name_no_clamps(a);
    grammar::specs_name_no_clamps(b);
    lemma_shape_nonempty(a);
    lemma_shape_nonempty(b);
}

proof fn lemma_shape_nonempty(s: Seq<char>)
    requires
        grammar::has_spec_shape(s),
    ensures
        s.len() > 0,
{
    if s.len() == 0 {
        text::lemma_pieces_single(s, ',');
        assert(text::trimmed(s).len() == 0);
    }
}

} // verus!
