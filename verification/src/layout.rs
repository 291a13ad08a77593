//! How the lines of a rule file are grouped: which package a line belongs to,
//! where new lines of a package go, and the tidy order of a whole file.
use vstd::prelude::*;

use crate::config;
use crate::config::AppConfig;
use crate::grammar;
use crate::grammar::OuterLine;
use crate::names::NameSet;
use crate::order;
use crate::text;

verus! {

broadcast use vstd::string::group_string_axioms;

/// What kind of line a line is.
pub enum LineKind {
    /// Blank, or a comment.
    Skip,
    /// A global setting.
    Global,
    /// A line of a package: a rule or a refresh-rate setting.
    Pkg(String),
    /// The first line of a block of a package.
    Block(String),
    /// Anything else.
    Other,
}

/// The contents of a [`LineKind`].
pub ghost enum KindView {
    Skip,
    Global,
    Pkg(Seq<char>),
    Block(Seq<char>),
    Other,
}

impl View for LineKind {
    type V = KindView;

    open spec fn view(&self) -> KindView {
        match self {
            LineKind::Skip => KindView::Skip,
            LineKind::Global => KindView::Global,
            LineKind::Pkg(p) => KindView::Pkg(p@),
            LineKind::Block(p) => KindView::Block(p@),
            LineKind::Other => KindView::Other,
        }
    }
}

/// The package that a line names: before its `=`, before the first of at least
/// two commas, or before the `{` that ends it.
pub open spec fn named_package(line: Seq<char>) -> Option<Seq<char>> {
    let t = text::trimmed(grammar::uncommented(line));
    let eq = text::first(t, '=') as int;
    let key = text::trimmed(text::trimmed_end_of(text::trimmed(t.take(eq)), '{'));
    let fields = text::pieces(t, ',');
    let opener = text::trimmed(text::trimmed_end_of(t, '{'));
    if eq < t.len() && key.len() > 0 && !key.contains(',') {
        Some(key)
    } else if fields.len() >= 3 && text::trimmed(fields[0]).len() > 0 {
        Some(text::trimmed(fields[0]))
    } else if t.len() > 0 && t.last() == '{' && opener.len() > 0 {
        Some(opener)
    } else {
        None
    }
}

/// The package that a line names.
pub fn pkg_of_line(line: &str) -> (r: Option<String>)
    ensures
        match r {
            Some(p) => named_package(line@) == Some(p@),
            None => named_package(line@) is None,
        },
{
    let t = text::trim(grammar::strip_comment(line));
    if let Some((k, _)) = text::split_once(t, '=') {
        let k = text::trim(text::trim_end_of(text::trim(k), '{'));
        if !k.is_empty() && !text::has_char(k, ',') {
            return Some(k.to_owned());
        }
    }
    let fields = text::split(t, ',');
    assert(fields@[0]@ == text::pieces(t@, ',')[0]);
    if fields.len() >= 3 {
        let f = text::trim(fields[0]);
        if !f.is_empty() {
            return Some(f.to_owned());
        }
    }
    match text::strip_last(t, '{') {
        Some(_) => {
            let k = text::trim(text::trim_end_of(t, '{'));
            if !k.is_empty() {
                return Some(k.to_owned());
            }
        },
        None => {},
    }
    None
}

/// The kind of a line. A one-line rule belongs to its package; any other line
/// of a package that holds a `{` starts a block.
pub open spec fn kind_of(line: Seq<char>) -> KindView {
    let raw = text::trimmed(grammar::uncommented(line));
    let eq = text::first(raw, '=') as int;
    if grammar::is_blank_or_comment(line) || raw.len() == 0 {
        KindView::Skip
    } else if eq < raw.len() && !raw.contains(',') && !raw.contains('{') && text::starts(
        text::trimmed(raw.take(eq)),
        "refresh_"@,
    ) {
        KindView::Global
    } else {
        match grammar::outer(raw) {
            grammar::OuterView::Single { pkg, open, .. } => if open {
                KindView::Block(pkg)
            } else {
                KindView::Pkg(pkg)
            },
            _ => match named_package(raw) {
                Some(pkg) => if raw.contains('{') {
                    KindView::Block(pkg)
                } else {
                    KindView::Pkg(pkg)
                },
                None => KindView::Other,
            },
        }
    }
}

/// Tells what kind of line a line is.
pub fn classify_line(line: &str) -> (r: LineKind)
    ensures
        r@ == kind_of(line@),
{
    let raw = text::trim(grammar::strip_comment(line));
    if grammar::is_skip_line(line) || raw.is_empty() {
        return LineKind::Skip;
    }
    if let Some((k, _)) = text::split_once(raw, '=') {
        if !text::has_char(raw, ',') && !text::has_char(raw, '{') && text::starts_with(
            text::trim(k),
            "refresh_",
        ) {
            return LineKind::Global;
        }
    }
    match grammar::parse_outer(raw) {
        OuterLine::Single { pkg, open, .. } => {
            if open {
                LineKind::Block(pkg.to_owned())
            } else {
                LineKind::Pkg(pkg.to_owned())
            }
        },
        _ => match pkg_of_line(raw) {
            Some(pkg) => if text::has_char(raw, '{') {
                LineKind::Block(pkg)
            } else {
                LineKind::Pkg(pkg)
            },
            None => LineKind::Other,
        },
    }
}

/// A piece of the file that stays together: a line that heads the file, or a
/// line or block of a package.
#[verifier::ext_equal]
pub ghost struct UnitView {
    /// The package; nothing for a line that heads the file.
    pub pkg: Option<Seq<char>>,
    pub text: Seq<char>,
}

/// The end of the block whose first line stands just before `i`: behind the
/// first line that has a `}`.
pub open spec fn block_end(lines: Seq<Seq<char>>, i: int) -> int
    decreases lines.len() - i,
{
    if i >= lines.len() {
        lines.len() as int
    } else if lines[i].contains('}') {
        i + 1
    } else {
        block_end(lines, i + 1)
    }
}

/// The pieces of the file from line `i` on.
pub open spec fn units(lines: Seq<Seq<char>>, i: int) -> Seq<UnitView>
    decreases lines.len() - i,
{
    if i >= lines.len() {
        seq![]
    } else {
        match kind_of(lines[i]) {
            KindView::Block(pkg) => {
                let e = block_end(lines, i + 1);
                if i < e <= lines.len() {
                    seq![
                        UnitView {
                            pkg: Some(pkg),
                            text: text::joined(lines.subrange(i, e), seq!['\n']),
                        },
                    ] + units(lines, e)
                } else {
                    seq![]
                }
            },
            KindView::Pkg(pkg) => seq![UnitView { pkg: Some(pkg), text: lines[i] }] + units(
                lines,
                i + 1,
            ),
            _ => seq![UnitView { pkg: None, text: lines[i] }] + units(lines, i + 1),
        }
    }
}

/// The packages that the pieces belong to.
pub open spec fn unit_pkgs(us: Seq<UnitView>) -> Set<Seq<char>> {
    Set::new(|p: Seq<char>| exists|i: int| 0 <= i < us.len() && (#[trigger] us[i]).pkg == Some(p))
}

/// A line that sets a refresh rate: it comes behind the rules of its package.
pub open spec fn is_attribute(l: Seq<char>) -> bool {
    text::holds(text::trimmed(l), "=refresh-"@)
}

/// Whether a line sets a refresh rate.
fn is_special_attr(l: &str) -> (r: bool)
    ensures
        r == is_attribute(l@),
{
    text::contains(text::trim(l), "=refresh-")
}

/// The texts of those pieces that belong to `pkg` and are, or are not,
/// attributes, in the order of the file.
pub open spec fn picked(us: Seq<UnitView>, pkg: Option<Seq<char>>, attrs: Option<bool>) -> Seq<
    Seq<char>,
>
    decreases us.len(),
{
    if us.len() == 0 {
        seq![]
    } else {
        let rest = picked(us.drop_last(), pkg, attrs);
        let u = us.last();
        if u.pkg == pkg && (attrs matches Some(b) ==> is_attribute(u.text) == b) {
            rest.push(u.text)
        } else {
            rest
        }
    }
}

/// The pieces of one package: rules first, attributes behind them.
pub open spec fn group(us: Seq<UnitView>, pkg: Seq<char>) -> Seq<Seq<char>> {
    picked(us, Some(pkg), Some(false)) + picked(us, Some(pkg), Some(true))
}

/// The pieces of some packages, one package behind the other.
pub open spec fn groups(us: Seq<UnitView>, order: Seq<Seq<char>>) -> Seq<Seq<char>>
    decreases order.len(),
{
    if order.len() == 0 {
        seq![]
    } else {
        groups(us, order.drop_last()) + group(us, order.last())
    }
}

/// The lines of the tidy file: first those that belong to no package, in the
/// order of the file, then the packages in the order of their names.
pub open spec fn tidy(us: Seq<UnitView>, order: Seq<Seq<char>>) -> Seq<Seq<char>> {
    picked(us, None, None) + groups(us, order)
}

/// A piece of the file that stays together.
struct Unit {
    pkg: Option<String>,
    text: String,
}

impl Unit {
    spec fn is(self, u: UnitView) -> bool {
        &&& self.text@ == u.text
        &&& match self.pkg {
            Some(p) => u.pkg == Some(p@),
            None => u.pkg is None,
        }
    }
}

spec fn all_are(a: Seq<Unit>, us: Seq<UnitView>) -> bool {
    a.len() == us.len() && forall|i: int| 0 <= i < a.len() ==> (#[trigger] a[i]).is(us[i])
}

pub(crate) proof fn lemma_block_end(lines: Seq<Seq<char>>, i: int, e: int)
    requires
        0 <= i <= e <= lines.len(),
        forall|j: int| i <= j < e - 1 ==> !(#[trigger] lines[j]).contains('}'),
        (i < e && lines[e - 1].contains('}')) || (e == lines.len() && forall|j: int|
            i <= j < e ==> !(#[trigger] lines[j]).contains('}')),
    ensures
        block_end(lines, i) == e,
    decreases e - i,
{
    if i < e {
        if i < e - 1 || !lines[i].contains('}') {
            assert(!lines[i].contains('}'));
            lemma_block_end(lines, i + 1, e);
        }
    }
}

/// Cuts a file into the pieces that stay together.
fn cut(lines: &Vec<&str>) -> (r: Vec<Unit>)
    ensures
        all_are(r@, units(text::views(lines@), 0)),
{
    let ghost all = text::views(lines@);
    let mut r: Vec<Unit> = Vec::new();
    let mut i: usize = 0;
    let ghost mut done: Seq<UnitView> = seq![];
    assert(done + units(all, 0) == units(all, 0));
    while i < lines.len()
        invariant
            i <= lines.len(),
            all == text::views(lines@),
            all_are(r@, done),
            units(all, 0) == done + units(all, i as int),
        decreases lines.len() - i,
    {
        let line = lines[i];
        assert(line@ == all[i as int]);
        let ghost from = i as int;
        let unit: Unit = match classify_line(line) {
            LineKind::Block(pkg) => {
                let mut t: String = line.to_owned();
                i += 1;
                let mut closed: bool = false;
                proof {
                    assert(all.subrange(from, i as int) =~= seq![line@]);
                }
                while i < lines.len() && !closed
                    invariant
                        0 <= from < i <= lines.len(),
                        all == text::views(lines@),
                        t@ == text::joined(all.subrange(from, i as int), seq!['\n']),
                        forall|j: int| from < j < i - 1 ==> !(#[trigger] all[j]).contains('}'),
                        closed ==> from + 1 < i && all[i - 1].contains('}'),
                        !closed ==> forall|j: int|
                            from < j < i ==> !(#[trigger] all[j]).contains('}'),
                    decreases lines.len() - i,
                {
                    let l = lines[i];
                    assert(l@ == all[i as int]);
                    t.push('\n');
                    t.append(l);
                    closed = text::has_char(l, '}');
                    i += 1;
                    proof {
                        let now = all.subrange(from, i as int);
                        assert(now.drop_last() =~= all.subrange(from, i - 1));
                        assert(now.last() == l@);
                        assert(t@ =~= text::joined(now.drop_last(), seq!['\n']) + seq!['\n']
                            + now.last());
                    }
                }
                proof {
                    lemma_block_end(all, from + 1, i as int);
                }
                Unit { pkg: Some(pkg), text: t }
            },
            LineKind::Pkg(pkg) => {
                i += 1;
                Unit { pkg: Some(pkg), text: line.to_owned() }
            },
            _ => {
                i += 1;
                Unit { pkg: None, text: line.to_owned() }
            },
        };
        proof {
            let u = units(all, from)[0];
            assert(units(all, from) == seq![u] + units(all, i as int));
            assert(unit.is(u));
            assert(done + (seq![u] + units(all, i as int)) =~= done.push(u) + units(
                all,
                i as int,
            ));
            done = done.push(u);
        }
        let ghost old_r = r@;
        r.push(unit);
        assert forall|k: int| 0 <= k < r@.len() implies (#[trigger] r@[k]).is(done[k]) by {
            if k < old_r.len() {
                assert(old_r[k].is(done.drop_last()[k]));
            }
        }
    }
    assert(done + units(all, i as int) =~= done);
    r
}

/// The packages of the pieces.
fn packages(us: &Vec<Unit>, Ghost(vs): Ghost<Seq<UnitView>>) -> (r: (NameSet, Vec<String>))
    requires
        all_are(us@, vs),
    ensures
        r.0.wf(),
        r.0@ == unit_pkgs(vs),
        order::ascending(text::owned(r.1@)),
        text::owned(r.1@).to_set() == unit_pkgs(vs),
{
    let mut set = NameSet::new();
    let mut order: Vec<String> = Vec::new();
    let mut i: usize = 0;
    assert(set@ =~= unit_pkgs(vs.take(0)));
    assert(text::owned(order@).to_set() =~= unit_pkgs(vs.take(0)));
    while i < us.len()
        invariant
            i <= us.len(),
            all_are(us@, vs),
            set.wf(),
            set@ == unit_pkgs(vs.take(i as int)),
            order::ascending(text::owned(order@)),
            text::owned(order@).to_set() == unit_pkgs(vs.take(i as int)),
        decreases us.len() - i,
    {
        assert(us@[i as int].is(vs[i as int]));
        let ghost a = vs.take(i as int);
        let ghost b = vs.take(i + 1);
        if let Some(p) = &us[i].pkg {
            set.insert(p.as_str());
            order::insert_ascending(&mut order, p.as_str());
        }
        proof {
            assert(b =~= a.push(vs[i as int]));
            assert forall|p: Seq<char>| unit_pkgs(b).contains(p) <==> (unit_pkgs(a).contains(p)
                || vs[i as int].pkg == Some(p)) by {
                if unit_pkgs(a).contains(p) {
                    let k = choose|k: int| 0 <= k < a.len() && (#[trigger] a[k]).pkg == Some(p);
                    assert(b[k] == a[k]);
                }
                assert(b[i as int] == vs[i as int]);
            }
            assert(set@ =~= unit_pkgs(b));
            assert(text::owned(order@).to_set() =~= unit_pkgs(b));
        }
        i += 1;
    }
    assert(vs.take(vs.len() as int) =~= vs);
    (set, order)
}

/// Adds the texts of the pieces of one package, or of none, to a list.
fn pick(
    out: &mut Vec<String>,
    us: &Vec<Unit>,
    pkg: Option<&str>,
    attrs: Option<bool>,
    Ghost(vs): Ghost<Seq<UnitView>>,
)
    requires
        all_are(us@, vs),
    ensures
        text::owned(final(out)@) == text::owned(old(out)@) + picked(
            vs,
            match pkg {
                Some(p) => Some(p@),
                None => None,
            },
            attrs,
        ),
{
    let ghost want: Option<Seq<char>> = match pkg {
        Some(p) => Some(p@),
        None => None,
    };
    let ghost start = text::owned(out@);
    let mut i: usize = 0;
    assert(vs.take(0) =~= Seq::<UnitView>::empty());
    assert(start + picked(vs.take(0), want, attrs) =~= start);
    while i < us.len()
        invariant
            i <= us.len(),
            all_are(us@, vs),
            want == (match pkg {
                Some(p) => Some(p@),
                None => None,
            }),
            text::owned(out@) == start + picked(vs.take(i as int), want, attrs),
        decreases us.len() - i,
    {
        let u = &us[i];
        assert(u.is(vs[i as int]));
        let belongs: bool = match (&u.pkg, pkg) {
            (Some(a), Some(b)) => text::same(a.as_str(), b),
            (None, None) => true,
            _ => false,
        };
        let fits: bool = match attrs {
            Some(b) => is_special_attr(u.text.as_str()) == b,
            None => true,
        };
        let ghost now = vs.take(i + 1);
        assert(now.drop_last() =~= vs.take(i as int));
        assert(now.last() == vs[i as int]);
        let ghost mid = text::owned(out@);
        if belongs && fits {
            out.push(u.text.clone());
            assert(text::owned(out@) =~= mid.push(vs[i as int].text));
        }
        assert(text::owned(out@) =~= start + picked(now, want, attrs));
        i += 1;
    }
    assert(vs.take(vs.len() as int) =~= vs);
}

/// The tidy text of a file whose pieces and packages are given.
pub open spec fn tidy_text(us: Seq<UnitView>, order: Seq<Seq<char>>) -> Seq<char> {
    text::joined(tidy(us, order), seq!['\n']) + seq!['\n']
}

/// `order` is the ascending order of the packages of the pieces.
pub open spec fn is_order_of(order: Seq<Seq<char>>, us: Seq<UnitView>) -> bool {
    order::ascending(order) && order.to_set() == unit_pkgs(us)
}

/// The packages that a configuration speaks of: those with a CPU rule, and
/// those with refresh-rate settings.
pub open spec fn config_pkgs(cfg: Option<&AppConfig>) -> Set<Seq<char>> {
    match cfg {
        Some(c) => config::rule_pkgs(config::rule_views(c.rules@)).union(
            c.app_refresh_configs@.dom(),
        ),
        None => Set::empty(),
    }
}

/// Adds names to a set.
fn insert_all(set: &mut NameSet, names: &Vec<String>)
    requires
        old(set).wf(),
    ensures
        final(set).wf(),
        final(set)@ == old(set)@.union(text::owned(names@).to_set()),
{
    let ghost all = text::owned(names@);
    let ghost start = set@;
    let mut i: usize = 0;
    assert(start =~= start.union(all.take(0).to_set()));
    while i < names.len()
        invariant
            i <= names.len(),
            all == text::owned(names@),
            set.wf(),
            set@ == start.union(all.take(i as int).to_set()),
        decreases names.len() - i,
    {
        let ghost before = all.take(i as int);
        let ghost after = all.take(i + 1);
        set.insert(names[i].as_str());
        proof {
            assert(after =~= before.push(all[i as int]));
            assert forall|n: Seq<char>| after.contains(n) <==> (before.contains(n) || n
                == all[i as int]) by {
                if before.contains(n) {
                    assert(after[before.index_of(n)] == n);
                }
                assert(after[i as int] == all[i as int]);
            }
            assert(set@ =~= start.union(after.to_set()));
        }
        i += 1;
    }
    assert(all.take(all.len() as int) =~= all);
}

/// The packages of the configuration in force.
pub fn current_config_pkg_set(cfg: Option<&AppConfig>) -> (r: NameSet)
    requires
        cfg matches Some(c) ==> c.wf(),
    ensures
        r.wf(),
        r@ == config_pkgs(cfg),
{
    let mut set = NameSet::new();
    if let Some(c) = cfg {
        insert_all(&mut set, &c.pkgs.names);
        insert_all(&mut set, &c.app_refresh_configs.sorted_keys());
        assert(set@ =~= config_pkgs(cfg));
    }
    set
}

/// What tidying a file comes to: nothing where its packages are those in force.
pub open spec fn is_tidied(
    content: Seq<char>,
    current: Set<Seq<char>>,
    r: Option<Seq<char>>,
) -> bool {
    let us = units(text::line_seq(content), 0);
    match r {
        Some(t) => unit_pkgs(us) != current && exists|order: Seq<Seq<char>>|
            is_order_of(order, us) && t == #[trigger] tidy_text(us, order),
        None => unit_pkgs(us) == current,
    }
}

/// Tidies a rule file: lines that belong to no package keep their order and
/// come first; then the packages by name, each with its rules before its
/// attributes, and each block in one piece. A file whose packages are those of
/// the configuration in force is left as it is.
pub fn organize_config(content: &str, current: &NameSet) -> (r: Option<String>)
    ensures
        is_tidied(
            content@,
            current@,
            match r {
                Some(t) => Some(t@),
                None => None,
            },
        ),
{
    let lines = text::lines(content);
    let us = cut(&lines);
    let ghost vs = units(text::line_seq(content@), 0);
    let (set, order) = packages(&us, Ghost(vs));
    if set.same_as(current) {
        return None;
    }
    let mut out: Vec<String> = Vec::new();
    let ghost ord = text::owned(order@);
    pick(&mut out, &us, None, None, Ghost(vs));
    let ghost heads = picked(vs, None, None);
    assert(text::owned(out@) =~= heads);
    let mut i: usize = 0;
    assert(ord.take(0) =~= Seq::<Seq<char>>::empty());
    assert(heads + groups(vs, ord.take(0)) =~= heads);
    while i < order.len()
        invariant
            i <= order.len(),
            ord == text::owned(order@),
            all_are(us@, vs),
            text::owned(out@) == heads + groups(vs, ord.take(i as int)),
        decreases order.len() - i,
    {
        let p = order[i].as_str();
        assert(p@ == ord[i as int]);
        let ghost now = ord.take(i + 1);
        assert(now.drop_last() =~= ord.take(i as int));
        assert(now.last() == p@);
        let ghost start = text::owned(out@);
        pick(&mut out, &us, Some(p), Some(false), Ghost(vs));
        pick(&mut out, &us, Some(p), Some(true), Ghost(vs));
        assert(text::owned(out@) =~= heads + groups(vs, now));
        i += 1;
    }
    assert(ord.take(ord.len() as int) =~= ord);
    proof {
        reveal_strlit("\n");
        assert("\n"@ =~= seq!['\n']);
    }
    let mut t = text::join(&out, "\n");
    t.push('\n');
    assert(t@ =~= tidy_text(vs, ord));
    Some(t)
}

/// The text of a file made of lines.
pub fn file_text(lines: &Vec<String>) -> (r: String)
    ensures
        r@ == text::joined(text::owned(lines@), seq!['\n']) + seq!['\n'],
{
    proof {
        reveal_strlit("\n");
        assert("\n"@ =~= seq!['\n']);
    }
    let mut t = text::join(lines, "\n");
    t.push('\n');
    assert(t@ =~= text::joined(text::owned(lines@), seq!['\n']) + seq!['\n']);
    t
}

/// A character that can stand behind a package's name at the start of a line.
pub open spec fn ends_name(c: char) -> bool {
    c == '=' || c == '{' || c == ',' || text::is_space(c)
}

/// A line that belongs to `pkg`: it starts with the name, behind which it ends
/// or goes on with a character that ends a name; or it is the name in square
/// brackets.
pub open spec fn is_line_of(line: Seq<char>, pkg: Seq<char>) -> bool {
    let t = text::trimmed(line);
    &&& !grammar::is_blank_or_comment(line)
    &&& (text::starts(t, pkg) && (t.len() == pkg.len() || ends_name(t[pkg.len() as int]))) || t
        == seq!['['] + pkg + seq![']']
}

/// Where the lines that start at `i` end: a block runs to the line with its
/// `}`, or to the end of the file.
pub open spec fn segment_end(lines: Seq<Seq<char>>, i: int) -> int {
    if lines[i].contains('{') && !lines[i].contains('}') {
        block_end(lines, i + 1)
    } else {
        i + 1
    }
}

/// Behind the last line, or block, of `pkg` from line `i` on.
pub open spec fn last_end(lines: Seq<Seq<char>>, pkg: Seq<char>, i: int) -> Option<int>
    decreases lines.len() - i,
{
    if i >= lines.len() {
        None
    } else if is_line_of(lines[i], pkg) {
        let e = segment_end(lines, i);
        if i < e <= lines.len() {
            match last_end(lines, pkg, e) {
                Some(x) => Some(x),
                None => Some(e),
            }
        } else {
            None
        }
    } else {
        last_end(lines, pkg, i + 1)
    }
}

/// Whether a line belongs to a package.
fn line_of(line: &str, pkg: &str) -> (r: bool)
    ensures
        r == is_line_of(line@, pkg@),
{
    if grammar::is_skip_line(line) {
        return false;
    }
    let t = text::trim(line);
    if text::starts_with(t, pkg) {
        let n: usize = pkg.unicode_len();
        if n == t.unicode_len() {
            return true;
        }
        let c: char = t.get_char(n);
        if c == '=' || c == '{' || c == ',' || text::space(c) {
            return true;
        }
    }
    let mut br = String::new();
    br.push('[');
    br.append(pkg);
    br.push(']');
    assert(br@ =~= seq!['['] + pkg@ + seq![']']);
    text::same(t, br.as_str())
}

/// Behind the first line, from `i` on, that has a `}`.
fn find_block_end(lines: &Vec<String>, i: usize) -> (r: usize)
    requires
        i <= lines.len(),
    ensures
        r == block_end(text::owned(lines@), i as int),
        i <= r <= lines.len(),
        i < lines.len() ==> i < r,
{
    let ghost all = text::owned(lines@);
    let mut j: usize = i;
    while j < lines.len()
        invariant
            i <= j <= lines.len(),
            all == text::owned(lines@),
            forall|k: int| i <= k < j ==> !(#[trigger] all[k]).contains('}'),
        decreases lines.len() - j,
    {
        assert(lines@[j as int]@ == all[j as int]);
        if text::has_char(lines[j].as_str(), '}') {
            proof {
                lemma_block_end(all, i as int, j + 1);
            }
            return j + 1;
        }
        j += 1;
    }
    proof {
        lemma_block_end(all, i as int, j as int);
    }
    j
}

/// Where a new line of a package goes: behind the last of its lines or blocks;
/// nothing where the file has none.
pub fn last_pkg_end_index(lines: &Vec<String>, pkg: &str) -> (r: Option<usize>)
    ensures
        match r {
            Some(i) => last_end(text::owned(lines@), pkg@, 0) == Some(i as int) && 0 < i
                <= lines@.len(),
            None => last_end(text::owned(lines@), pkg@, 0) is None,
        },
{
    let ghost all = text::owned(lines@);
    let mut last: Option<usize> = None;
    let mut i: usize = 0;
    while i < lines.len()
        invariant
            i <= lines.len(),
            all == text::owned(lines@),
            last matches Some(x) ==> 0 < x <= lines@.len(),
            last_end(all, pkg@, 0) == (match last_end(all, pkg@, i as int) {
                Some(x) => Some(x),
                None => match last {
                    Some(x) => Some(x as int),
                    None => None,
                },
            }),
        decreases lines.len() - i,
    {
        assert(lines@[i as int]@ == all[i as int]);
        let line = lines[i].as_str();
        if line_of(line, pkg) {
            let e: usize = if text::has_char(line, '{') && !text::has_char(line, '}') {
                find_block_end(lines, i + 1)
            } else {
                i + 1
            };
            last = Some(e);
            i = e;
        } else {
            i += 1;
        }
    }
    last
}

/// The texts of the pieces.
pub open spec fn unit_texts(us: Seq<UnitView>) -> Seq<Seq<char>> {
    us.map_values(|u: UnitView| u.text)
}

proof fn lemma_multiset_add(a: Seq<Seq<char>>, b: Seq<Seq<char>>)
    ensures
        (a + b).to_multiset() == a.to_multiset().add(b.to_multiset()),
{
    vstd::seq_lib::lemma_multiset_commutative(a, b);
}

proof fn lemma_multiset_push(a: Seq<Seq<char>>, x: Seq<char>)
    ensures
        a.push(x).to_multiset() == a.to_multiset().insert(x),
{
    a.to_multiset_ensures();
}

/// What one more piece adds to the group of a package.
proof fn lemma_group_push(us: Seq<UnitView>, u: UnitView, pkg: Seq<char>)
    ensures
        group(us.push(u), pkg).to_multiset() == if u.pkg == Some(pkg) {
            group(us, pkg).to_multiset().insert(u.text)
        } else {
            group(us, pkg).to_multiset()
        },
{
    let next = us.push(u);
    assert(next.drop_last() =~= us);
    let r = picked(us, Some(pkg), Some(false));
    let a = picked(us, Some(pkg), Some(true));
    lemma_multiset_add(r, a);
    lemma_multiset_push(r, u.text);
    lemma_multiset_push(a, u.text);
    lemma_multiset_add(r.push(u.text), a);
    lemma_multiset_add(r, a.push(u.text));
    if u.pkg == Some(pkg) {
        assert(r.to_multiset().insert(u.text).add(a.to_multiset()) =~= r.to_multiset().add(
            a.to_multiset(),
        ).insert(u.text));
        assert(r.to_multiset().add(a.to_multiset().insert(u.text)) =~= r.to_multiset().add(
            a.to_multiset(),
        ).insert(u.text));
    }
}

/// What one more piece adds to the groups of some packages.
proof fn lemma_groups_push(us: Seq<UnitView>, u: UnitView, order: Seq<Seq<char>>)
    requires
        order.no_duplicates(),
    ensures
        groups(us.push(u), order).to_multiset() == if u.pkg is Some && order.contains(u.pkg->0) {
            groups(us, order).to_multiset().insert(u.text)
        } else {
            groups(us, order).to_multiset()
        },
    decreases order.len(),
{
    if order.len() > 0 {
        let init = order.drop_last();
        let p = order.last();
        lemma_groups_push(us, u, init);
        lemma_group_push(us, u, p);
        lemma_multiset_add(groups(us, init), group(us, p));
        lemma_multiset_add(groups(us.push(u), init), group(us.push(u), p));
        assert(!init.contains(p)) by {
            if init.contains(p) {
                let k = init.index_of(p);
                assert(order[k] == order[order.len() - 1]);
            }
        }
        assert forall|x: Seq<char>| order.contains(x) <==> (init.contains(x) || x == p) by {
            if order.contains(x) {
                let k = order.index_of(x);
                if k < init.len() {
                    assert(init[k] == x);
                }
            }
            if init.contains(x) {
                let k = init.index_of(x);
                assert(order[k] == x);
            }
            assert(order[order.len() - 1] == p);
        }
        let g = groups(us, init).to_multiset();
        let h = group(us, p).to_multiset();
        assert(g.insert(u.text).add(h) =~= g.add(h).insert(u.text));
        assert(g.add(h.insert(u.text)) =~= g.add(h).insert(u.text));
    } else {
        assert(groups(us.push(u), order) =~= groups(us, order));
    }
}

proof fn lemma_tidy_counts(us: Seq<UnitView>, order: Seq<Seq<char>>)
    requires
        order.no_duplicates(),
        unit_pkgs(us).subset_of(order.to_set()),
    ensures
        tidy(us, order).to_multiset() == unit_texts(us).to_multiset(),
    decreases us.len(),
{
    if us.len() == 0 {
        lemma_groups_of_nothing(us, order);
        assert(tidy(us, order) =~= Seq::<Seq<char>>::empty());
        assert(unit_texts(us) =~= Seq::<Seq<char>>::empty());
    } else {
        let init = us.drop_last();
        let u = us.last();
        assert(init.push(u) =~= us);
        assert(unit_pkgs(init).subset_of(unit_pkgs(us))) by {
            assert forall|p: Seq<char>| unit_pkgs(init).contains(p) implies unit_pkgs(
                us,
            ).contains(p) by {
                let k = choose|k: int| 0 <= k < init.len() && (#[trigger] init[k]).pkg == Some(p);
                assert(us[k] == init[k]);
            }
        }
        lemma_tidy_counts(init, order);
        lemma_groups_push(init, u, order);
        let h = picked(init, None, None);
        let g = groups(init, order);
        lemma_multiset_add(h, g);
        lemma_multiset_push(h, u.text);
        lemma_multiset_add(picked(us, None, None), groups(us, order));
        if u.pkg is Some {
            assert(us[us.len() - 1].pkg == Some(u.pkg->0));
            assert(unit_pkgs(us).contains(u.pkg->0));
            assert(order.contains(u.pkg->0));
            assert(h.to_multiset().add(g.to_multiset().insert(u.text)) =~= h.to_multiset().add(
                g.to_multiset(),
            ).insert(u.text));
        } else {
            assert(h.to_multiset().insert(u.text).add(g.to_multiset()) =~= h.to_multiset().add(
                g.to_multiset(),
            ).insert(u.text));
        }
        assert(unit_texts(us) =~= unit_texts(init).push(u.text));
        lemma_multiset_push(unit_texts(init), u.text);
    }
}

proof fn lemma_groups_of_nothing(us: Seq<UnitView>, order: Seq<Seq<char>>)
    requires
        us.len() == 0,
    ensures
        groups(us, order) == Seq::<Seq<char>>::empty(),
    decreases order.len(),
{
    if order.len() > 0 {
        lemma_groups_of_nothing(us, order.drop_last());
        assert(group(us, order.last()) =~= Seq::<Seq<char>>::empty());
    }
    assert(groups(us, order) =~= Seq::<Seq<char>>::empty());
}

/// Tidying a file loses no piece of it and adds none.
pub proof fn tidying_keeps_every_piece(us: Seq<UnitView>, order: Seq<Seq<char>>)
    requires
        is_order_of(order, us),
    ensures
        tidy(us, order).to_multiset() == unit_texts(us).to_multiset(),
{
    assert(order.no_duplicates()) by {
        assert forall|i: int, j: int|
            0 <= i < order.len() && 0 <= j < order.len() && i != j implies order[i] != order[j] by {
            if i < j {
                assert(order::before(order[i], order[j]));
                order::lemma_before_irreflexive(order[i]);
            } else {
                assert(order::before(order[j], order[i]));
                order::lemma_before_irreflexive(order[i]);
            }
        }
    }
    lemma_tidy_counts(us, order);
}

/// The packages in force are those with a CPU rule, and those with a refresh rate
/// of their own.
pub proof fn packages_in_force(cfg: AppConfig, p: Seq<char>)
    requires
        cfg.wf(),
    ensures
        config_pkgs(Some(&cfg)).contains(p) <==> (exists|i: int|
            0 <= i < cfg.rules@.len() && (#[trigger] cfg.rules@[i]).pkg@ == p)
            || cfg.app_refresh_configs@.contains_key(p),
        config_pkgs(None) == Set::<Seq<char>>::empty(),
{
    config::packages_are_those_of_the_rules(cfg, p);
}

/// The tidy text of a file is the only one there is.
pub proof fn tidy_text_is_unique(us: Seq<UnitView>, a: Seq<Seq<char>>, b: Seq<Seq<char>>)
    requires
        is_order_of(a, us),
        is_order_of(b, us),
    ensures
        tidy_text(us, a) == tidy_text(us, b),
{
    order::ascending_is_unique(a, b);
}

} // verus!
