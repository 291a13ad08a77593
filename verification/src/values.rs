//! What the value of a rule means: CPUs by number, range or tier, and
//! utilisation clamps.
use vstd::prelude::*;

use crate::config;
use crate::config::RuleView;
use crate::cpuset;
use crate::cpuset::CpuTopology;
use crate::grammar;
use crate::number;
use crate::text;

verus! {

broadcast use vstd::string::group_string_axioms;

/// The present CPUs from `a` to `b`.
pub open spec fn present_from(topo: CpuTopology, a: int, b: int) -> Set<int> {
    Set::new(|c: int| a <= c <= b && 0 <= c < 1024 && topo.present_cpus@.contains(c))
}

/// Digits alone have nothing around them to trim, and no separators in them.
proof fn lemma_digits(s: Seq<char>)
    requires
        s.len() > 0,
        number::all_digits(s),
    ensures
        text::trimmed(s) == s,
        !s.contains(','),
        !s.contains('-'),
        !text::is_space(s[0]),
        !text::is_space(s.last()),
{
    assert(number::is_digit(s[0]));
    assert(number::is_digit(s[s.len() - 1]));
    text::lemma_trimmed_id(s);
    assert forall|c: char| s.contains(c) implies number::is_digit(c) by {
        assert(number::is_digit(s[s.index_of(c)]));
    }
}

proof fn lemma_one_item(t: Seq<char>, topo: CpuTopology, lo: nat, hi: nat)
    requires
        t.len() > 0,
        number::is_digit(t[0]),
        text::trimmed(t) == t,
        !t.contains(','),
        cpuset::item_range(t) == Some((lo, hi)),
    ensures
        cpuset::spec_cpus(t, topo) == present_from(topo, lo as int, hi as int),
{
    reveal_strlit("e-core");
    reveal_strlit("p-core");
    reveal_strlit("hp-core");
    reveal_strlit("all-core");
    text::lemma_pieces_single(t, ',');
    let ps = text::pieces(t, ',');
    assert(ps[0] == t);
    let want = present_from(topo, lo as int, hi as int);
    let present = topo.present_cpus@;
    assert forall|c: int| cpuset::listed(t, present).contains(c) <==> want.contains(c) by {
        if cpuset::listed(t, present).contains(c) {
            let k = choose|k: int|
                0 <= k < ps.len() && #[trigger] cpuset::item_names(text::trimmed(ps[k]), c);
            assert(k == 0);
        }
        if want.contains(c) {
            assert(cpuset::item_names(text::trimmed(ps[0]), c));
        }
    }
    assert(cpuset::listed(t, present) =~= want);
    assert forall|c: int| cpuset::spec_cpus(t, topo).contains(c) <==> want.contains(c) by {
        if want.contains(c) {
            assert(cpuset::item_cpus(text::trimmed(ps[0]), topo).contains(c));
        }
    }
    assert(cpuset::spec_cpus(t, topo) =~= want);
}

/// A number stands for the CPU with that number, where the machine has it.
pub proof fn numbers_are_cpus(n: nat, topo: CpuTopology)
    requires
        n < 0xffff_ffff,
    ensures
        grammar::has_spec_shape(number::dec(n)),
        cpuset::spec_cpus(number::dec(n), topo) == present_from(topo, n as int, n as int),
{
    let t = number::dec(n);
    number::dec_reads_back(n);
    lemma_digits(t);
    text::lemma_pieces_single(t, ',');
    assert(text::pieces(t, ',')[0] == t);
    text::lemma_first(t, '-');
    assert(t.take(t.len() as int) =~= t);
    assert(number::is_digit(t[0]));
    number::unsigned_reads_dec(n, usize::MAX as nat);
    lemma_one_item(t, topo, n, n);
}

/// Two numbers with a dash between them stand for the CPUs from the one to the
/// other, as far as the machine has them.
pub proof fn ranges_are_cpus(a: nat, b: nat, topo: CpuTopology)
    requires
        a <= b < 0xffff_ffff,
    ensures
        grammar::has_spec_shape(number::dec(a) + seq!['-'] + number::dec(b)),
        cpuset::spec_cpus(number::dec(a) + seq!['-'] + number::dec(b), topo) == present_from(
            topo,
            a as int,
            b as int,
        ),
{
    let x = number::dec(a);
    let y = number::dec(b);
    let t = x + seq!['-'] + y;
    number::dec_reads_back(a);
    number::dec_reads_back(b);
    lemma_digits(x);
    lemma_digits(y);
    assert(t[0] == x[0]);
    assert(t.last() == y.last());
    text::lemma_trimmed_id(t);
    assert(!t.contains(',')) by {
        if t.contains(',') {
            let j = t.index_of(',');
            if j < x.len() {
                assert(x[j] == ',');
            } else if j > x.len() {
                assert(y[j - x.len() - 1] == ',');
            }
        }
    }
    text::lemma_pieces_single(t, ',');
    assert(text::pieces(t, ',')[0] == t);
    let k = x.len() as int;
    assert forall|j: int| 0 <= j < k implies t[j] != '-' by {
        assert(t[j] == x[j]);
    }
    text::lemma_first_at(t, '-', k);
    assert(t.take(k) =~= x);
    assert(t.skip(k + 1) =~= y);
    number::unsigned_reads_dec(a, usize::MAX as nat);
    number::unsigned_reads_dec(b, usize::MAX as nat);
    assert(number::is_digit(x[0]));
    lemma_one_item(t, topo, a, b);
}

/// The name of a tier stands for the cores of that tier, and `all-core` for all
/// that the machine has.
pub proof fn tiers_are_cpus(topo: CpuTopology)
    ensures
        cpuset::spec_cpus("e-core"@, topo) == topo.e_core@,
        cpuset::spec_cpus("p-core"@, topo) == topo.p_core@,
        cpuset::spec_cpus("hp-core"@, topo) == topo.hp_core@,
        cpuset::spec_cpus("all-core"@, topo) == topo.present_cpus@,
        grammar::has_spec_shape("e-core"@),
        grammar::has_spec_shape("p-core"@),
        grammar::has_spec_shape("hp-core"@),
        grammar::has_spec_shape("all-core"@),
{
    reveal_strlit("e-core");
    reveal_strlit("p-core");
    reveal_strlit("hp-core");
    reveal_strlit("all-core");
    assert("e-core"@[0] != "p-core"@[0]);
    cpuset::names_are_specs("e-core"@, topo);
    cpuset::names_are_specs("p-core"@, topo);
    cpuset::names_are_specs("hp-core"@, topo);
    cpuset::names_are_specs("all-core"@, topo);
    assert forall|name: Seq<char>|
        (name == "e-core"@ || name == "p-core"@ || name == "hp-core"@ || name
            == "all-core"@) implies #[trigger] grammar::has_spec_shape(name) by {
        assert(!name.contains(',')) by {
            if name.contains(',') {
                assert(name[name.index_of(',')] == ',');
            }
        }
        text::lemma_pieces_single(name, ',');
        text::lemma_trimmed_id(name);
        assert(text::pieces(name, ',')[0] == name);
    }
}

/// Specifications with a comma between them make one specification.
pub proof fn lists_are_specs(a: Seq<char>, b: Seq<char>)
    requires
        grammar::has_spec_shape(a),
        grammar::has_spec_shape(b),
    ensures
        grammar::has_spec_shape(a + seq![','] + b),
{
    text::lemma_pieces_concat(a, ',', b);
    let pa = text::pieces(a, ',');
    let pb = text::pieces(b, ',');
    let ps = text::pieces(a + seq![','] + b, ',');
    let k = choose|k: int| 0 <= k < pa.len() && text::trimmed(#[trigger] pa[k]).len() > 0;
    assert(ps[k] == pa[k]);
    assert forall|j: int|
        0 <= j < ps.len() && text::trimmed(#[trigger] ps[j]).len() > 0 implies grammar::is_spec_item(
        text::trimmed(ps[j]),
    ) by {
        if j < pa.len() {
            assert(ps[j] == pa[j]);
        } else {
            assert(ps[j] == pb[j - pa.len()]);
        }
    }
}

/// A specification without commas and white space is a name of a tier, or holds
/// digits and dashes alone.
pub proof fn other_texts_are_no_specs(s: Seq<char>, i: int)
    requires
        0 <= i < s.len(),
        !s.contains(','),
        text::trimmed(s) == s,
        s != "e-core"@ && s != "p-core"@ && s != "hp-core"@ && s != "all-core"@,
        !('0' <= s[i] <= '9') && s[i] != '-',
    ensures
        !grammar::has_spec_shape(s),
{
    text::lemma_pieces_single(s, ',');
    assert(text::pieces(s, ',')[0] == s);
    if number::all_digits(s) {
        assert(number::is_digit(s[i]));
    }
    let k = text::first(s, '-') as int;
    text::lemma_first(s, '-');
    if k < s.len() && number::all_digits(s.take(k)) && number::all_digits(s.skip(k + 1)) {
        if i < k {
            assert(number::is_digit(s.take(k)[i]));
        } else if i > k {
            assert(number::is_digit(s.skip(k + 1)[i - k - 1]));
        }
    }
}

/// Names that a rule can have: the package has one, neither is too long, and
/// neither holds a control character.
pub open spec fn are_names(pkg: Seq<char>, thread: Seq<char>) -> bool {
    &&& 0 < pkg.len()
    &&& text::byte_len(pkg) < 128
    &&& text::byte_len(thread) < 32
    &&& forall|i: int| 0 <= i < pkg.len() ==> ' ' <= #[trigger] pkg[i] && pkg[i] != '\u{7f}'
    &&& forall|i: int| 0 <= i < thread.len() ==> ' ' <= #[trigger] thread[i] && thread[i] != '\u{7f}'
}

proof fn lemma_control(c: char)
    ensures
        config::is_control(c) == !(' ' <= c && c != '\u{7f}'),
{
}

pub(crate) proof fn lemma_printable(s: Seq<char>)
    ensures
        config::is_printable(s) == forall|i: int|
            0 <= i < s.len() ==> ' ' <= #[trigger] s[i] && s[i] != '\u{7f}',
{
    assert forall|i: int| 0 <= i < s.len() implies config::is_control(#[trigger] s[i]) == !(' '
        <= s[i] && s[i] != '\u{7f}') by {
        lemma_control(s[i]);
    }
    if !config::is_printable(s) {
        let i = choose|i: int| 0 <= i < s.len() && config::is_control(#[trigger] s[i]);
        assert(!(' ' <= s[i] && s[i] != '\u{7f}'));
    }
}

proof fn lemma_names(pkg: Seq<char>, thread: Seq<char>)
    ensures
        config::names_fit(pkg, thread) == are_names(pkg, thread),
{
    lemma_printable(pkg);
    lemma_printable(thread);
}

/// A specification that stands for CPUs makes a rule for just these CPUs and
/// without clamps; one that stands for none, or a name that no rule can have,
/// makes none.
pub proof fn values_name_cpus(
    topo: CpuTopology,
    pkg: Seq<char>,
    thread: Seq<char>,
    cpus: Seq<char>,
)
    requires
        grammar::has_spec_shape(cpus),
    ensures
        config::rule_for(topo, pkg, thread, cpus) == if are_names(pkg, thread) && cpuset::spec_cpus(
            cpus,
            topo,
        ) != Set::<int>::empty() {
            Some(
                RuleView {
                    pkg,
                    thread,
                    cpus: cpuset::spec_cpus(cpus, topo),
                    util_min: -1,
                    util_max: -1,
                },
            )
        } else {
            None
        },
{
    grammar::specs_name_no_clamps(cpus);
    lemma_names(pkg, thread);
    lemma_some_item(cpus);
}

pub(crate) proof fn lemma_some_item(s: Seq<char>)
    requires
        grammar::has_spec_shape(s),
    ensures
        s.len() > 0,
{
    if s.len() == 0 {
        text::lemma_pieces_single(s, ',');
        assert(text::trimmed(s).len() == 0);
    }
}

/// The parts of a value with two numbers behind it.
proof fn lemma_clamped(cpus: Seq<char>, lo: nat, hi: nat)
    requires
        lo <= 1024,
        hi <= 1024,
    ensures
        ({
            let v = cpus + seq!['-'] + number::dec(lo) + seq!['-'] + number::dec(hi);
            grammar::rule_spec(v) == (cpus, lo as int, hi as int)
        }),
{
    let x = number::dec(lo);
    let y = number::dec(hi);
    let v = cpus + seq!['-'] + x + seq!['-'] + y;
    number::dec_reads_back(lo);
    number::dec_reads_back(hi);
    lemma_digits(x);
    lemma_digits(y);
    text::lemma_pieces_concat(cpus, '-', x);
    text::lemma_pieces_concat(cpus + seq!['-'] + x, '-', y);
    text::lemma_pieces_single(x, '-');
    text::lemma_pieces_single(y, '-');
    let pc = text::pieces(cpus, '-');
    let ps = text::pieces(v, '-');
    text::join_undoes_split(cpus, '-');
    assert(ps =~= pc + seq![x] + seq![y]);
    let n = ps.len() as int;
    assert(ps[n - 2] == x && ps[n - 1] == y);
    assert(ps.take(n - 2) =~= pc);
    number::signed_reads_dec_int(lo as int, i32::MIN as int, i32::MAX as int);
    number::signed_reads_dec_int(hi as int, i32::MIN as int, i32::MAX as int);
}

/// Two numbers behind the CPUs, each after a dash, are the lower and the upper
/// clamp of the rule. Without CPUs before them they make a rule for clamps alone.
pub proof fn values_name_clamps(
    topo: CpuTopology,
    pkg: Seq<char>,
    thread: Seq<char>,
    cpus: Seq<char>,
    lo: nat,
    hi: nat,
)
    requires
        lo <= 1024,
        hi <= 1024,
        are_names(pkg, thread),
        cpus.len() > 0 ==> grammar::has_spec_shape(cpus) && cpuset::spec_cpus(cpus, topo) != Set::<
            int,
        >::empty(),
    ensures
        config::rule_for(
            topo,
            pkg,
            thread,
            cpus + seq!['-'] + number::dec(lo) + seq!['-'] + number::dec(hi),
        ) == Some(
            RuleView {
                pkg,
                thread,
                cpus: if cpus.len() > 0 {
                    cpuset::spec_cpus(cpus, topo)
                } else {
                    Set::empty()
                },
                util_min: lo as int,
                util_max: hi as int,
            },
        ),
{
    lemma_clamped(cpus, lo, hi);
    lemma_names(pkg, thread);
}

/// What is neither a specification nor has two dashes in it makes no rule.
pub proof fn other_values_make_no_rule(
    topo: CpuTopology,
    pkg: Seq<char>,
    thread: Seq<char>,
    value: Seq<char>,
)
    requires
        !grammar::has_spec_shape(value),
        forall|i: int, j: int|
            0 <= i < j < value.len() && #[trigger] value[i] == '-' ==> #[trigger] value[j] != '-',
    ensures
        config::rule_for(topo, pkg, thread, value) is None,
{
    let ps = text::pieces(value, '-');
    text::lemma_first(value, '-');
    let k = text::first(value, '-') as int;
    if k < value.len() {
        let h = value.take(k);
        let t = value.skip(k + 1);
        assert(!t.contains('-')) by {
            if t.contains('-') {
                let j = t.index_of('-');
                assert(value[k] == '-' && value[k + 1 + j] == '-');
            }
        }
        text::lemma_pieces_single(t, '-');
        assert(value =~= h + seq!['-'] + t);
        assert(!h.contains('-')) by {
            if h.contains('-') {
                let j = h.index_of('-');
                assert(value[j] == '-');
            }
        }
        text::lemma_pieces_concat(h, '-', t);
        text::lemma_pieces_single(h, '-');
        assert(ps.len() == 2);
    } else {
        assert(!value.contains('-'));
        text::lemma_pieces_single(value, '-');
    }
}

/// A name that no rule can have makes none, whatever the value.
pub proof fn other_names_make_no_rule(
    topo: CpuTopology,
    pkg: Seq<char>,
    thread: Seq<char>,
    value: Seq<char>,
)
    requires
        !are_names(pkg, thread),
    ensures
        config::rule_for(topo, pkg, thread, value) is None,
{
    lemma_names(pkg, thread);
}

/// A range stands for the same CPUs whichever end comes first.
pub proof fn ranges_may_be_reversed(a: nat, b: nat, topo: CpuTopology)
    requires
        a <= b < 0xffff_ffff,
    ensures
        cpuset::spec_cpus(number::dec(b) + seq!['-'] + number::dec(a), topo) == present_from(
            topo,
            a as int,
            b as int,
        ),
{
    let x = number::dec(b);
    let y = number::dec(a);
    let t = x + seq!['-'] + y;
    number::dec_reads_back(a);
    number::dec_reads_back(b);
    lemma_digits(x);
    lemma_digits(y);
    assert(t[0] == x[0]);
    assert(t.last() == y.last());
    text::lemma_trimmed_id(t);
    assert(!t.contains(',')) by {
        if t.contains(',') {
            let j = t.index_of(',');
            if j < x.len() {
                assert(x[j] == ',');
            } else if j > x.len() {
                assert(y[j - x.len() - 1] == ',');
            }
        }
    }
    let k = x.len() as int;
    assert forall|j: int| 0 <= j < k implies t[j] != '-' by {
        assert(t[j] == x[j]);
    }
    text::lemma_first_at(t, '-', k);
    assert(t.take(k) =~= x);
    assert(t.skip(k + 1) =~= y);
    number::unsigned_reads_dec(a, usize::MAX as nat);
    number::unsigned_reads_dec(b, usize::MAX as nat);
    assert(number::is_digit(x[0]));
    lemma_one_item(t, topo, a, b);
}

/// Clamps above 1024 are none: with them behind it, a range makes no rule.
#[verifier::rlimit(50)]
pub proof fn high_clamps_make_no_rule(
    topo: CpuTopology,
    pkg: Seq<char>,
    thread: Seq<char>,
    a: nat,
    lo: nat,
    hi: nat,
)
    requires
        lo > 1024 || hi > 1024,
        lo <= i32::MAX,
        hi <= i32::MAX,
    ensures
        config::rule_for(
            topo,
            pkg,
            thread,
            number::dec(a) + seq!['-'] + number::dec(lo) + seq!['-'] + number::dec(hi),
        ) is None,
{
    let c = number::dec(a);
    let x = number::dec(lo);
    let y = number::dec(hi);
    let v = c + seq!['-'] + x + seq!['-'] + y;
    number::dec_reads_back(a);
    number::dec_reads_back(lo);
    number::dec_reads_back(hi);
    lemma_digits(c);
    lemma_digits(x);
    lemma_digits(y);
    text::lemma_pieces_concat(c, '-', x);
    text::lemma_pieces_concat(c + seq!['-'] + x, '-', y);
    text::lemma_pieces_single(c, '-');
    text::lemma_pieces_single(x, '-');
    text::lemma_pieces_single(y, '-');
    let ps = text::pieces(v, '-');
    assert(ps =~= seq![c, x, y]);
    number::signed_reads_dec_int(lo as int, i32::MIN as int, i32::MAX as int);
    number::signed_reads_dec_int(hi as int, i32::MIN as int, i32::MAX as int);
    assert(grammar::rule_spec(v) == (v, -1int, -1int));
    if grammar::has_spec_shape(v) {
        assert(v[0] == c[0]);
        assert(v.last() == y.last());
        text::lemma_trimmed_id(v);
        assert(!v.contains(',')) by {
            if v.contains(',') {
                let j = v.index_of(',');
                let n1 = c.len() as int;
                let n2 = n1 + 1 + x.len();
                if j < n1 {
                    assert(c[j] == ',');
                } else if n1 < j < n2 {
                    assert(x[j - n1 - 1] == ',');
                } else if n2 < j {
                    assert(y[j - n2 - 1] == ',');
                }
            }
        }
        text::lemma_pieces_single(v, ',');
        assert(text::pieces(v, ',')[0] == v);
        let n1 = c.len() as int;
        assert(v[n1] == '-');
        assert(v[n1 + 1 + x.len()] == '-');
        grammar::lemma_two_dashes(v, n1, n1 + 1 + x.len());
    }
}

} // verus!
