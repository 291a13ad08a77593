//! Commands to the kernel module, and what is done in place of it to the files
//! of the system properties.
use vstd::prelude::*;

use crate::number;
use crate::session::{RowView, VfcRow};
use crate::text;

verus! {

broadcast use vstd::string::group_string_axioms;

/// The number of a command as the kernel expects it, under a fixed mark.
pub fn ver_and_cmd(cmd: i64) -> (r: i64)
    ensures
        r == 0x1158_0000 + cmd as int % 0x1_0000,
{
    proof {
        assert((0x1158i64 << 16i64) | (cmd & 0xffff) == 0x1158_0000 + (cmd & 0xffff)) by (bit_vector);
        assert(cmd >= 0 ==> cmd & 0xffff == cmd % 0x1_0000) by (bit_vector);
        assert(cmd < 0 ==> (cmd & 0xffff) == cmd - ((cmd >> 16i64) * 0x1_0000)) by (bit_vector);
        assert(0 <= (cmd & 0xffff) < 0x1_0000) by (bit_vector);
        if cmd < 0 {
            let low = (cmd & 0xffff) as int;
            let q = (cmd >> 16i64) as int;
            assert(cmd == q * 0x1_0000 + low);
            vstd::arithmetic::div_mod::lemma_fundamental_div_mod_converse(
                cmd as int,
                0x1_0000,
                q,
                low,
            );
        }
    }
    (0x1158i64 << 16i64) | (cmd & 0xffff)
}

/// The key of the kernel interface: the one that the environment gives, if it
/// gives one.
pub fn kpm_key(env: Option<&str>) -> (r: String)
    ensures
        r@ == (match env {
            Some(k) => if k@.len() > 0 {
                k@
            } else {
                "su"@
            },
            None => "su"@,
        }),
{
    match env {
        Some(k) => if !k.is_empty() {
            k.to_owned()
        } else {
            "su".to_owned()
        },
        None => "su".to_owned(),
    }
}

/// The kernel module answers: its result is no error, and it says `p`.
pub fn ping_ok(result: i64, out: &Vec<u8>) -> (r: bool)
    ensures
        r == (result >= 0 && out@.len() > 0 && out@[0] == 0x70),
{
    result >= 0 && out.len() > 0 && out[0] == 0x70
}

/// Turns the disguise of system services on or off.
pub fn srv_active_command(on: bool) -> (r: String)
    ensures
        r@ == (if on {
            "srv_active 1"@
        } else {
            "srv_active 0"@
        }),
{
    if on {
        "srv_active 1".to_owned()
    } else {
        "srv_active 0".to_owned()
    }
}

/// A command that sets a pair of texts under a number.
pub open spec fn pair_text(name: Seq<char>, idx: nat, from: Seq<char>, to: Seq<char>) -> Seq<char> {
    name + seq![' '] + number::dec(idx) + seq![' '] + from + seq![' '] + to
}

/// A command that sets a pair of texts under a number.
pub fn pair_command(name: &str, idx: u64, from: &str, to: &str) -> (r: String)
    ensures
        r@ == pair_text(name@, idx as nat, from@, to@),
{
    let mut r = name.to_owned();
    r.push(' ');
    number::push_u64(&mut r, idx);
    r.push(' ');
    r.append(from);
    r.push(' ');
    r.append(to);
    proof {
        assert(r@ =~= pair_text(name@, idx as nat, from@, to@));
    }
    r
}

/// The command for a rule on files under a number.
pub open spec fn vfc_rule_text(idx: nat, row: RowView) -> Seq<char> {
    "vfc_rule "@ + number::dec(idx) + seq![' '] + row.pkg + seq![' '] + row.kind + seq![' ']
        + row.target + seq![' '] + row.from + seq![' '] + row.to
}

/// The command that hands over a rule on files under a number.
pub fn vfc_rule_command(idx: u64, row: &VfcRow) -> (r: String)
    ensures
        r@ == vfc_rule_text(idx as nat, row@),
{
    let mut r = "vfc_rule ".to_owned();
    number::push_u64(&mut r, idx);
    r.push(' ');
    r.append(row.pkg.as_str());
    r.push(' ');
    r.append(row.kind.as_str());
    r.push(' ');
    r.append(row.target.as_str());
    r.push(' ');
    r.append(row.from.as_str());
    r.push(' ');
    r.append(row.to.as_str());
    assert(r@ =~= vfc_rule_text(idx as nat, row@));
    r
}

/// The command that tells how many rules on files are for all applications.
pub fn vfc_glob_count_command(n: u64) -> (r: String)
    ensures
        r@ == "vfc_glob_count "@ + number::dec(n as nat),
{
    let mut r = "vfc_glob_count ".to_owned();
    number::push_u64(&mut r, n);
    r
}

/// The command that tells which application is in the foreground.
pub fn vfc_fg_command(pkg: &str) -> (r: String)
    ensures
        r@ == "vfc_fg "@ + pkg@,
{
    let mut r = "vfc_fg ".to_owned();
    r.append(pkg);
    r
}

/// Thread numbers, each behind a space.
pub open spec fn spaced(tids: Seq<i32>) -> Seq<char>
    decreases tids.len(),
{
    if tids.len() == 0 {
        seq![]
    } else {
        spaced(tids.drop_last()) + seq![' '] + number::dec_int(tids.last() as int)
    }
}

/// The command that tells which threads run on the CPUs of a word.
pub fn applied_set_many_command(bits: u64, tids: &Vec<i32>) -> (r: String)
    ensures
        r@ == "applied_set_many "@ + number::dec(bits as nat) + spaced(tids@),
{
    let mut r = "applied_set_many ".to_owned();
    number::push_u64(&mut r, bits);
    let ghost head = r@;
    let mut i: usize = 0;
    assert(r@ =~= head + spaced(tids@.take(0)));
    while i < tids.len()
        invariant
            i <= tids.len(),
            r@ == head + spaced(tids@.take(i as int)),
        decreases tids.len() - i,
    {
        r.push(' ');
        number::push_i32(&mut r, tids[i]);
        proof {
            let t = tids@.take(i + 1);
            assert(t.drop_last() =~= tids@.take(i as int));
            assert(r@ =~= head + spaced(t));
        }
        i += 1;
    }
    assert(tids@.take(i as int) =~= tids@);
    r
}

/// The file of a property context.
pub fn prop_path(ctx: &str) -> (r: String)
    ensures
        r@ == "/dev/__properties__/"@ + ctx@,
{
    let mut r = "/dev/__properties__/".to_owned();
    r.append(ctx);
    r
}

/// Whether a context is still to be mapped.
pub fn needs_map(mapped: &Vec<String>, ctx: &str) -> (r: bool)
    ensures
        r == !text::owned(mapped@).contains(ctx@),
{
    let mut i: usize = 0;
    while i < mapped.len()
        invariant
            i <= mapped.len(),
            forall|j: int| 0 <= j < i ==> text::owned(mapped@)[j] != ctx@,
        decreases mapped.len() - i,
    {
        if text::same(mapped[i].as_str(), ctx) {
            assert(text::owned(mapped@)[i as int] == ctx@);
            return false;
        }
        i += 1;
    }
    true
}

/// The pattern stands at `i`.
pub open spec fn occurs(b: Seq<u8>, pat: Seq<u8>, i: int) -> bool {
    0 <= i && i + pat.len() <= b.len() && b.subrange(i, i + pat.len()) == pat
}

/// The bytes with others in place of those from `i` on.
pub open spec fn overwritten(b: Seq<u8>, i: int, rep: Seq<u8>) -> Seq<u8> {
    b.take(i) + rep + b.skip(i + rep.len())
}

/// The bytes with every pattern from `i` on replaced, from left to right and
/// without overlap.
pub open spec fn replaced(b: Seq<u8>, i: int, pat: Seq<u8>, rep: Seq<u8>) -> Seq<u8>
    decreases b.len() - i,
{
    if pat.len() == 0 || rep.len() != pat.len() || i < 0 || i + pat.len() > b.len() {
        b
    } else if occurs(b, pat, i) {
        replaced(overwritten(b, i, rep), i + pat.len(), pat, rep)
    } else {
        replaced(b, i + 1, pat, rep)
    }
}

/// Where patterns were replaced, from `i` on.
pub open spec fn hits(b: Seq<u8>, i: int, pat: Seq<u8>, rep: Seq<u8>) -> Set<int>
    decreases b.len() - i,
{
    if pat.len() == 0 || rep.len() != pat.len() || i < 0 || i + pat.len() > b.len() {
        Set::empty()
    } else if occurs(b, pat, i) {
        hits(overwritten(b, i, rep), i + pat.len(), pat, rep).insert(i)
    } else {
        hits(b, i + 1, pat, rep)
    }
}

/// The bytes of a text.
pub open spec fn bytes_of(s: Seq<char>) -> Seq<u8> {
    vstd::utf8::encode_utf8(s)
}

/// The bytes after one rule: its first text becomes its second, or the other
/// way round. A rule whose texts are not of the same length does nothing.
pub open spec fn rule_applied(b: Seq<u8>, from: Seq<char>, to: Seq<char>, on: bool) -> Seq<u8> {
    if from.len() == 0 {
        b
    } else if on {
        replaced(b, 0, bytes_of(from), bytes_of(to))
    } else {
        replaced(b, 0, bytes_of(to), bytes_of(from))
    }
}

/// The bytes after the first `n` rules.
pub open spec fn rules_applied(b: Seq<u8>, rules: Seq<(String, String)>, n: nat, on: bool) -> Seq<u8>
    decreases n,
{
    if n == 0 {
        b
    } else {
        rule_applied(
            rules_applied(b, rules, (n - 1) as nat, on),
            rules[n - 1].0@,
            rules[n - 1].1@,
            on,
        )
    }
}

/// Whether the pattern stands at `i`.
fn occurs_at(b: &Vec<u8>, pat: &Vec<u8>, i: usize) -> (r: bool)
    requires
        i + pat.len() <= b.len(),
    ensures
        r == occurs(b@, pat@, i as int),
{
    let mut k: usize = 0;
    while k < pat.len()
        invariant
            k <= pat.len(),
            i + pat.len() <= b.len(),
            forall|j: int| 0 <= j < k ==> b@[i + j] == #[trigger] pat@[j],
        decreases pat.len() - k,
    {
        if b[i + k] != pat[k] {
            assert(b@.subrange(i as int, i + pat@.len())[k as int] == b@[i + k]);
            return false;
        }
        k += 1;
    }
    assert(b@.subrange(i as int, i + pat@.len()) =~= pat@);
    true
}

/// Writes bytes over those from `i` on.
fn overwrite(b: &mut Vec<u8>, i: usize, rep: &Vec<u8>)
    requires
        i + rep.len() <= old(b).len(),
    ensures
        final(b)@ == overwritten(old(b)@, i as int, rep@),
{
    let ghost before = b@;
    let mut k: usize = 0;
    while k < rep.len()
        invariant
            k <= rep.len(),
            b@.len() == before.len(),
            i + rep.len() <= b.len(),
            forall|j: int|
                0 <= j < b@.len() ==> #[trigger] b@[j] == (if i <= j < i + k {
                    rep@[j - i]
                } else {
                    before[j]
                }),
        decreases rep.len() - k,
    {
        b.set(i + k, rep[k]);
        k += 1;
    }
    assert(b@ =~= overwritten(before, i as int, rep@));
}

/// Replaces every pattern, from left to right.
fn replace_all(b: &mut Vec<u8>, pat: &Vec<u8>, rep: &Vec<u8>)
    ensures
        final(b)@ == replaced(old(b)@, 0, pat@, rep@),
{
    let n: usize = pat.len();
    if n == 0 || rep.len() != n {
        return ;
    }
    let mut i: usize = 0;
    let ghost all = b@;
    while b.len() - i >= n
        invariant
            0 < n,
            n == pat.len(),
            n == rep.len(),
            i <= b.len(),
            replaced(all, 0, pat@, rep@) == replaced(b@, i as int, pat@, rep@),
        decreases b.len() - i,
    {
        if occurs_at(b, pat, i) {
            overwrite(b, i, rep);
            i = i + n;
        } else {
            i = i + 1;
        }
    }
}

/// Disguises, or restores, the values of system properties in the bytes of a
/// property file.
pub fn prop_file_apply(b: &mut Vec<u8>, rules: &Vec<(String, String)>, on: bool)
    ensures
        final(b)@ == rules_applied(old(b)@, rules@, rules@.len(), on),
{
    let ghost all = b@;
    let mut k: usize = 0;
    while k < rules.len()
        invariant
            k <= rules.len(),
            b@ == rules_applied(all, rules@, k as nat, on),
        decreases rules.len() - k,
    {
        let from = &rules[k].0;
        let to = &rules[k].1;
        if !from.as_str().is_empty() {
            let a = from.as_str().as_bytes_vec();
            let c = to.as_str().as_bytes_vec();
            if on {
                replace_all(b, &a, &c);
            } else {
                replace_all(b, &c, &a);
            }
        }
        k += 1;
    }
}

proof fn lemma_replaced_keeps(b: Seq<u8>, i: int, pat: Seq<u8>, rep: Seq<u8>)
    ensures
        replaced(b, i, pat, rep).len() == b.len(),
        forall|j: int| 0 <= j < i && j < b.len() ==> replaced(b, i, pat, rep)[j] == #[trigger] b[j],
    decreases b.len() - i,
{
    if pat.len() == 0 || rep.len() != pat.len() || i < 0 || i + pat.len() > b.len() {
    } else if occurs(b, pat, i) {
        let c = overwritten(b, i, rep);
        lemma_replaced_keeps(c, i + pat.len(), pat, rep);
        assert forall|j: int| 0 <= j < i && j < b.len() implies replaced(b, i, pat, rep)[j]
            == #[trigger] b[j] by {
            assert(c[j] == b[j]);
        }
    } else {
        lemma_replaced_keeps(b, i + 1, pat, rep);
    }
}

proof fn lemma_hits_from(b: Seq<u8>, i: int, pat: Seq<u8>, rep: Seq<u8>, j: int)
    requires
        hits(b, i, pat, rep).contains(j),
    ensures
        i <= j,
    decreases b.len() - i,
{
    if pat.len() == 0 || rep.len() != pat.len() || i < 0 || i + pat.len() > b.len() {
    } else if occurs(b, pat, i) {
        if j != i {
            lemma_hits_from(overwritten(b, i, rep), i + pat.len(), pat, rep, j);
        }
    } else {
        lemma_hits_from(b, i + 1, pat, rep, j);
    }
}

proof fn lemma_undone(b: Seq<u8>, c: Seq<u8>, i: int, pat: Seq<u8>, rep: Seq<u8>)
    requires
        0 < pat.len() == rep.len(),
        0 <= i <= b.len(),
        c.len() == b.len(),
        ({
            let r = replaced(b, i, pat, rep);
            &&& c.skip(i) == r.skip(i)
            &&& forall|j: int| i <= j && #[trigger] occurs(r, rep, j) ==> hits(
                b,
                i,
                pat,
                rep,
            ).contains(j)
        }),
    ensures
        replaced(c, i, rep, pat) == c.take(i) + b.skip(i),
    decreases b.len() - i,
{
    let n = pat.len() as int;
    let r = replaced(b, i, pat, rep);
    lemma_replaced_keeps(b, i, pat, rep);
    assert forall|j: int| i <= j < c.len() implies c[j] == r[j] by {
        assert(c.skip(i)[j - i] == r.skip(i)[j - i]);
    }
    if i + n > b.len() {
        assert(c =~= c.take(i) + b.skip(i));
    } else if occurs(b, pat, i) {
        let b1 = overwritten(b, i, rep);
        lemma_replaced_keeps(b1, i + n, pat, rep);
        assert(r == replaced(b1, i + n, pat, rep));
        assert forall|j: int| 0 <= j < n implies c[i + j] == rep[j] by {
            assert(r[i + j] == b1[i + j]);
        }
        assert(c.subrange(i, i + n) =~= rep);
        assert(occurs(c, rep, i));
        let c1 = overwritten(c, i, pat);
        assert(c1.skip(i + n) =~= r.skip(i + n));
        assert forall|j: int| i + n <= j && #[trigger] occurs(r, rep, j) implies hits(
            b1,
            i + n,
            pat,
            rep,
        ).contains(j) by {
            assert(hits(b, i, pat, rep).contains(j));
        }
        lemma_undone(b1, c1, i + n, pat, rep);
        assert(b.subrange(i, i + n) == pat);
        assert(c1.take(i + n) + b1.skip(i + n) =~= c.take(i) + b.skip(i)) by {
            let x = c1.take(i + n) + b1.skip(i + n);
            let y = c.take(i) + b.skip(i);
            assert forall|j: int| 0 <= j < x.len() implies x[j] == y[j] by {
                if i <= j < i + n {
                    assert(b.subrange(i, i + n)[j - i] == b[j]);
                }
            }
        }
    } else {
        lemma_replaced_keeps(b, i + 1, pat, rep);
        assert(r[i] == b[i]);
        if occurs(c, rep, i) {
            assert(r.subrange(i, i + n) =~= c.subrange(i, i + n));
            assert(occurs(r, rep, i));
            assert(hits(b, i + 1, pat, rep).contains(i));
            lemma_hits_from(b, i + 1, pat, rep, i);
        }
        assert(c.skip(i + 1) =~= r.skip(i + 1));
        lemma_undone(b, c, i + 1, pat, rep);
        assert(c.take(i + 1) + b.skip(i + 1) =~= c.take(i) + b.skip(i));
    }
}

/// From position `i` on, what is replaced is what stands in the bytes from there
/// on, whatever was written before.
#[verifier::rlimit(50)]
proof fn lemma_replaced_from(b: Seq<u8>, c: Seq<u8>, i: int, pat: Seq<u8>, rep: Seq<u8>, k: int)
    requires
        0 < pat.len() == rep.len(),
        0 <= i <= b.len(),
        c.len() == b.len(),
        c.skip(i) == b.skip(i),
        i <= k < b.len(),
    ensures
        replaced(c, i, pat, rep).len() == b.len(),
        (forall|j: int| i <= j && #[trigger] occurs(b, pat, j) ==> !(j <= k < j + pat.len()))
            ==> replaced(c, i, pat, rep)[k] == b[k],
        (occurs(b, pat, k) && forall|j: int|
            i <= j && j != k && #[trigger] occurs(b, pat, j) ==> j + pat.len() <= k || k + pat.len()
                <= j) ==> replaced(c, i, pat, rep).subrange(k, k + pat.len()) == rep,
    decreases b.len() - i,
{
    let n = pat.len() as int;
    let r = replaced(c, i, pat, rep);
    lemma_replaced_keeps(c, i, pat, rep);
    assert forall|j: int| i <= j < b.len() implies c[j] == b[j] by {
        assert(c.skip(i)[j - i] == b.skip(i)[j - i]);
    }
    assert forall|j: int| i <= j implies occurs(c, pat, j) == occurs(b, pat, j) by {
        if j + n <= b.len() {
            assert(c.subrange(j, j + n) =~= b.subrange(j, j + n));
        }
    }
    if i + n > b.len() {
    } else if occurs(c, pat, i) {
        let d = overwritten(c, i, rep);
        lemma_replaced_keeps(d, i + n, pat, rep);
        assert(d.skip(i + n) =~= b.skip(i + n));
        assert(occurs(b, pat, i));
        if k >= i + n {
            lemma_replaced_from(b, d, i + n, pat, rep, k);
        } else {
            assert(r.subrange(i, i + n) =~= rep) by {
                assert forall|x: int| 0 <= x < n implies r.subrange(i, i + n)[x] == rep[x] by {
                    assert(r[i + x] == d[i + x]);
                }
            }
        }
    } else {
        lemma_replaced_keeps(c, i + 1, pat, rep);
        assert(c.skip(i + 1) =~= b.skip(i + 1));
        if k > i {
            lemma_replaced_from(b, c, i + 1, pat, rep, k);
        } else {
            assert(r[i] == c[i]);
            assert(!occurs(b, pat, i));
        }
    }
}

/// Disguising turns the first text of a rule into the second wherever it stands
/// by itself, and changes no byte outside of it; restoring does the same the
/// other way round. Texts of different lengths are left alone.
#[verifier::rlimit(50)]
pub proof fn texts_are_disguised(b: Seq<u8>, from: Seq<char>, to: Seq<char>, k: int)
    requires
        from.len() > 0,
        0 <= k < b.len(),
    ensures
        ({
            let pat = bytes_of(from);
            let rep = bytes_of(to);
            let n = pat.len() as int;
            let r = rule_applied(b, from, to, true);
            &&& r.len() == b.len()
            &&& rep.len() != n ==> r == b
            &&& rep.len() == n && occurs(b, pat, k) && (forall|j: int|
                j != k && #[trigger] occurs(b, pat, j) ==> j + n <= k || k + n <= j) ==> r.subrange(
                k,
                k + n,
            ) == rep
            &&& (forall|j: int| #[trigger] occurs(b, pat, j) ==> !(j <= k < j + n)) ==> r[k] == b[k]
        }),
        ({
            let pat = bytes_of(to);
            let rep = bytes_of(from);
            let n = pat.len() as int;
            let r = rule_applied(b, from, to, false);
            &&& r.len() == b.len()
            &&& rep.len() == n && 0 < n && occurs(b, pat, k) && (forall|j: int|
                j != k && #[trigger] occurs(b, pat, j) ==> j + n <= k || k + n <= j) ==> r.subrange(
                k,
                k + n,
            ) == rep
            &&& (forall|j: int| #[trigger] occurs(b, pat, j) ==> !(j <= k < j + n)) ==> r[k] == b[k]
        }),
{
    let pat = bytes_of(from);
    let rep = bytes_of(to);
    lemma_replaced_keeps(b, 0, pat, rep);
    lemma_replaced_keeps(b, 0, rep, pat);
    if 0 < pat.len() == rep.len() {
        lemma_replaced_from(b, b, 0, pat, rep, k);
        lemma_replaced_from(b, b, 0, rep, pat, k);
    }
    if pat.len() == 0 && rep.len() == 0 {
        assert(rule_applied(b, from, to, true) == b);
    }
    assert(bytes_of(from).len() > 0) by {
        lemma_some_bytes(from);
    }
}

/// A text that is not empty has bytes.
proof fn lemma_some_bytes(s: Seq<char>)
    requires
        s.len() > 0,
    ensures
        bytes_of(s).len() > 0,
{
    if bytes_of(s).len() == 0 {
        let none = Seq::<char>::empty();
        assert(bytes_of(none).len() == 0);
        assert(bytes_of(s) =~= bytes_of(none));
        vstd::utf8::encode_utf8_decode_utf8(s);
        vstd::utf8::encode_utf8_decode_utf8(none);
    }
}

/// All rules are applied, one behind the other.
pub proof fn every_rule_is_applied(b: Seq<u8>, rules: Seq<(String, String)>, on: bool)
    ensures
        rules.len() == 0 ==> rules_applied(b, rules, rules.len(), on) == b,
        rules.len() > 0 ==> rules_applied(b, rules, rules.len(), on) == rule_applied(
            rules_applied(b, rules.drop_last(), (rules.len() - 1) as nat, on),
            rules.last().0@,
            rules.last().1@,
            on,
        ),
{
    if rules.len() > 0 {
        lemma_first_rules(b, rules, (rules.len() - 1) as nat, on);
    }
}

proof fn lemma_first_rules(b: Seq<u8>, rules: Seq<(String, String)>, n: nat, on: bool)
    requires
        n < rules.len(),
    ensures
        rules_applied(b, rules, n, on) == rules_applied(b, rules.drop_last(), n, on),
    decreases n,
{
    if n > 0 {
        lemma_first_rules(b, rules, (n - 1) as nat, on);
    }
}

/// A disguise that is taken back leaves the bytes as they were. Left out are
/// files in which, once disguised, the new text stands anywhere but where it was
/// put: there it would be turned into the old text, too.
pub proof fn disguise_is_undone(b: Seq<u8>, from: Seq<char>, to: Seq<char>)
    requires
        from.len() > 0,
        forall|j: int| #[trigger]
            occurs(rule_applied(b, from, to, true), bytes_of(to), j) ==> hits(
                b,
                0,
                bytes_of(from),
                bytes_of(to),
            ).contains(j),
    ensures
        rule_applied(rule_applied(b, from, to, true), from, to, false) == b,
{
    let pat = bytes_of(from);
    let rep = bytes_of(to);
    let r = rule_applied(b, from, to, true);
    if 0 < pat.len() == rep.len() {
        lemma_replaced_keeps(b, 0, pat, rep);
        lemma_undone(b, r, 0, pat, rep);
        assert(r.take(0) + b.skip(0) =~= b);
    }
}

} // verus!
