//! The disguise rules of `waylay.conf`: which service, property or file name an
//! application is shown in place of which.
use std::collections::HashMap;

use vstd::prelude::*;

use crate::grammar;
use crate::http;
use crate::names;
use crate::names::NameSet;
use crate::number;
use crate::text;

verus! {

broadcast use vstd::string::group_string_axioms;

/// The name of the file that holds the rules.
pub const WAYLAY_FILE: &'static str = "waylay.conf";

/// What a rule disguises.
#[derive(Clone, Copy, PartialEq, Eq, Structural, Debug)]
pub enum WaylayKind {
    /// A system service.
    Src,
    /// A system property.
    Prop,
    /// Contents of a file.
    Red,
    /// The path of a file.
    RedPath,
}

/// The word for a kind.
pub open spec fn tag_text(k: WaylayKind) -> Seq<char> {
    match k {
        WaylayKind::Src => "src"@,
        WaylayKind::Prop => "prop"@,
        WaylayKind::Red => "red"@,
        WaylayKind::RedPath => "red-path"@,
    }
}

/// The kind that a word stands for.
pub open spec fn kind_named(t: Seq<char>) -> Option<WaylayKind> {
    if t == "src"@ {
        Some(WaylayKind::Src)
    } else if t == "prop"@ {
        Some(WaylayKind::Prop)
    } else if t == "red"@ {
        Some(WaylayKind::Red)
    } else if t == "red-path"@ {
        Some(WaylayKind::RedPath)
    } else {
        None
    }
}

impl WaylayKind {
    /// The word for this kind.
    pub fn tag(&self) -> (r: &'static str)
        ensures
            r@ == tag_text(*self),
    {
        match self {
            WaylayKind::Src => "src",
            WaylayKind::Prop => "prop",
            WaylayKind::Red => "red",
            WaylayKind::RedPath => "red-path",
        }
    }

    /// The kind that a word stands for.
    pub fn parse(t: &str) -> (r: Option<WaylayKind>)
        ensures
            r == kind_named(t@),
    {
        if text::same(t, "src") {
            Some(WaylayKind::Src)
        } else if text::same(t, "prop") {
            Some(WaylayKind::Prop)
        } else if text::same(t, "red") {
            Some(WaylayKind::Red)
        } else if text::same(t, "red-path") {
            Some(WaylayKind::RedPath)
        } else {
            None
        }
    }
}

proof fn lemma_tags()
    ensures
        "src"@ == seq!['s', 'r', 'c'],
        "prop"@ == seq!['p', 'r', 'o', 'p'],
        "red"@ == seq!['r', 'e', 'd'],
        "red-path"@ == seq!['r', 'e', 'd', '-', 'p', 'a', 't', 'h'],
        "red-path-"@ == seq!['r', 'e', 'd', '-', 'p', 'a', 't', 'h', '-'],
{
    reveal_strlit("src");
    reveal_strlit("prop");
    reveal_strlit("red");
    reveal_strlit("red-path");
    reveal_strlit("red-path-");
    assert("src"@ =~= seq!['s', 'r', 'c']);
    assert("prop"@ =~= seq!['p', 'r', 'o', 'p']);
    assert("red"@ =~= seq!['r', 'e', 'd']);
    assert("red-path"@ =~= seq!['r', 'e', 'd', '-', 'p', 'a', 't', 'h']);
    assert("red-path-"@ =~= seq!['r', 'e', 'd', '-', 'p', 'a', 't', 'h', '-']);
}

/// The word for a kind is read as that kind.
pub proof fn tag_reads_back(k: WaylayKind)
    ensures
        kind_named(tag_text(k)) == Some(k),
{
    lemma_tags();
    assert("src"@[0] != "prop"@[0]);
    assert("src"@[0] != "red"@[0]);
    assert("prop"@[0] != "red"@[0]);
    assert("red"@.len() != "red-path"@.len());
    assert("src"@[0] != "red-path"@[0]);
    assert("prop"@[0] != "red-path"@[0]);
}

/// One disguise for one application.
pub struct WaylayRule {
    /// The application; `*` for all.
    pub pkg: String,
    pub kind: WaylayKind,
    /// The file whose contents are replaced; empty for other kinds.
    pub target: String,
    pub from: String,
    pub to: String,
}

/// The contents of a rule.
#[verifier::ext_equal]
pub ghost struct WaylayView {
    pub pkg: Seq<char>,
    pub kind: WaylayKind,
    pub target: Seq<char>,
    pub from: Seq<char>,
    pub to: Seq<char>,
}

impl View for WaylayRule {
    type V = WaylayView;

    open spec fn view(&self) -> WaylayView {
        WaylayView {
            pkg: self.pkg@,
            kind: self.kind,
            target: self.target@,
            from: self.from@,
            to: self.to@,
        }
    }
}

/// The contents of a sequence of rules.
pub open spec fn waylay_views(rules: Seq<WaylayRule>) -> Seq<WaylayView> {
    rules.map_values(|r: WaylayRule| r@)
}

/// The text is an absolute path.
pub open spec fn is_path(s: Seq<char>) -> bool {
    s.len() > 0 && s[0] == '/'
}

/// What stands before and behind the first dash; two empty texts without one.
pub open spec fn dash_pair(s: Seq<char>) -> (Seq<char>, Seq<char>) {
    let k = text::first(s, '-') as int;
    if k < s.len() {
        (s.take(k), s.skip(k + 1))
    } else {
        (seq![], seq![])
    }
}

/// The word before the first dash of a value, and what follows. The word
/// `red-path` holds a dash itself.
pub open spec fn kind_and_rest(v: Seq<char>) -> (Seq<char>, Seq<char>) {
    let k = text::first(v, '-') as int;
    if text::starts(v, "red-path-"@) {
        ("red-path"@, v.skip(9))
    } else if k < v.len() {
        (v.take(k), v.skip(k + 1))
    } else {
        (v, seq![])
    }
}

/// The package and the value of a line that holds a rule: neither blank nor a
/// comment, with a name before its `=`.
pub open spec fn named_value(line: Seq<char>) -> Option<(Seq<char>, Seq<char>)> {
    let t = text::trimmed(line);
    if grammar::is_blank_or_comment(line) {
        None
    } else {
        match grammar::key_value(t) {
            Some((pkg, v)) => if pkg.len() > 0 {
                Some((pkg, v))
            } else {
                None
            },
            None => None,
        }
    }
}

/// The longest path, in bytes, of a file whose contents are replaced.
pub const MAX_TARGET_LEN: usize = 127;

/// A path that can be the file whose contents are replaced.
pub open spec fn is_target(s: Seq<char>) -> bool {
    is_path(s) && text::byte_len(s) <= MAX_TARGET_LEN
}

/// The rule that a package, a kind and the rest of a value make.
pub open spec fn rule_from(pkg: Seq<char>, kind: WaylayKind, rest: Seq<char>) -> Option<
    WaylayView,
> {
    let (a, b) = dash_pair(rest);
    let f = text::trimmed(a);
    let t = text::trimmed(b);
    let ps = text::pieces(rest, '-');
    let (f2, t2) = dash_pair(t);
    let none = Seq::<char>::empty();
    let v = match kind {
        WaylayKind::RedPath => if is_path(f) && is_path(t) {
            WaylayView { pkg, kind, target: none, from: f, to: t }
        } else if is_path(f) && text::byte_len(t) > 2 {
            WaylayView { pkg, kind: WaylayKind::Red, target: f, from: f2, to: t2 }
        } else {
            WaylayView { pkg, kind, target: none, from: none, to: none }
        },
        WaylayKind::Red => if is_target(ps[0]) && ps.len() >= 3 {
            WaylayView {
                pkg,
                kind,
                target: ps[0],
                from: ps[1],
                to: text::joined(ps.skip(2), seq!['-']),
            }
        } else {
            WaylayView { pkg, kind, target: none, from: none, to: none }
        },
        _ => WaylayView { pkg, kind, target: none, from: f, to: t },
    };
    if v.from.len() > 0 && v.to.len() > 0 {
        Some(v)
    } else {
        None
    }
}

/// The rule that a line holds, if it holds one.
pub open spec fn waylay_rule(line: Seq<char>) -> Option<WaylayView> {
    match named_value(line) {
        Some((pkg, v)) => {
            let (word, rest) = kind_and_rest(v);
            match kind_named(word) {
                Some(kind) => rule_from(pkg, kind, rest),
                None => None,
            }
        },
        None => None,
    }
}

/// The line is a content rule that names a file and nothing more: such a line
/// cannot be read.
pub open spec fn breaks_off(line: Seq<char>) -> bool {
    match named_value(line) {
        Some((pkg, v)) => {
            let (word, rest) = kind_and_rest(v);
            kind_named(word) == Some(WaylayKind::Red) && is_target(rest) && !rest.contains('-')
        },
        None => false,
    }
}

/// No line of the text breaks off.
pub open spec fn is_complete(content: Seq<char>) -> bool {
    forall|i: int|
        0 <= i < text::line_seq(content).len() ==> !breaks_off(#[trigger] text::line_seq(content)[i])
}

/// Package and value of a line that holds a rule.
fn split_named<'a>(line: &'a str) -> (r: Option<(&'a str, &'a str)>)
    ensures
        match r {
            Some((pkg, v)) => named_value(line@) == Some((pkg@, v@)),
            None => named_value(line@) is None,
        },
{
    if grammar::is_skip_line(line) {
        return None;
    }
    match text::split_once(text::trim(line), '=') {
        Some((k, v)) => {
            let pkg = text::trim(k);
            if pkg.is_empty() {
                None
            } else {
                Some((pkg, text::trim(v)))
            }
        },
        None => None,
    }
}

/// The word of a value and what follows it.
fn split_kind<'a>(v: &'a str) -> (r: (&'a str, &'a str))
    ensures
        kind_and_rest(v@) == (r.0@, r.1@),
{
    if text::starts_with(v, "red-path-") {
        proof {
            lemma_tags();
        }
        return ("red-path", text::tail(v, 9));
    }
    match text::split_once(v, '-') {
        Some(p) => p,
        None => {
            let n: usize = v.unicode_len();
            let rest = text::tail(v, n);
            assert(rest@ =~= Seq::<char>::empty());
            (v, rest)
        },
    }
}

/// What stands before and behind the first dash.
fn split_dash<'a>(s: &'a str) -> (r: (&'a str, &'a str))
    ensures
        dash_pair(s@) == (r.0@, r.1@),
{
    match text::split_once(s, '-') {
        Some(p) => p,
        None => {
            let e = text::head(s, 0);
            assert(e@ =~= Seq::<char>::empty());
            (e, e)
        },
    }
}

/// Whether the text is an absolute path.
fn path(s: &str) -> (r: bool)
    ensures
        r == is_path(s@),
{
    !s.is_empty() && s.get_char(0) == '/'
}

/// Joins all parts but the first two.
fn join_from_third(parts: &Vec<&str>) -> (r: String)
    requires
        parts.len() >= 2,
    ensures
        r@ == text::joined(text::views(parts@).skip(2), seq!['-']),
{
    let mut tail: Vec<&str> = Vec::new();
    let ghost all = text::views(parts@);
    let mut i: usize = 2;
    while i < parts.len()
        invariant
            2 <= i <= parts.len(),
            all == text::views(parts@),
            text::views(tail@) == all.subrange(2, i as int),
        decreases parts.len() - i,
    {
        let ghost old_tail = text::views(tail@);
        tail.push(parts[i]);
        assert(text::views(tail@) =~= old_tail.push(all[i as int]));
        assert(all.subrange(2, i + 1) =~= all.subrange(2, i as int).push(all[i as int]));
        i += 1;
    }
    assert(all.subrange(2, all.len() as int) =~= all.skip(2));
    assert(text::views(tail@).take(tail.len() as int) =~= text::views(tail@));
    proof {
        reveal_strlit("-");
        assert("-"@ =~= seq!['-']);
    }
    text::join_first(&tail, tail.len(), "-")
}

/// Makes the rule of a package, a kind and the rest of a value.
fn make_rule(pkg: &str, kind: WaylayKind, rest: &str) -> (r: Option<WaylayRule>)
    requires
        !(kind == WaylayKind::Red && is_target(rest@) && !rest@.contains('-')),
    ensures
        match r {
            Some(w) => rule_from(pkg@, kind, rest@) == Some(w@),
            None => rule_from(pkg@, kind, rest@) is None,
        },
{
    let (a, b) = split_dash(rest);
    let f = text::trim(a);
    let t = text::trim(b);
    let empty = String::new();
    assert(empty@ =~= Seq::<char>::empty());
    let (k, target, from, to): (WaylayKind, String, String, String) = match kind {
        WaylayKind::RedPath => {
            if path(f) && path(t) {
                (kind, empty, f.to_owned(), t.to_owned())
            } else if path(f) && text::byte_length(t) > 2 {
                let (f2, t2) = split_dash(t);
                (WaylayKind::Red, f.to_owned(), f2.to_owned(), t2.to_owned())
            } else {
                return None;
            }
        },
        WaylayKind::Red => {
            let parts = text::split(rest, '-');
            let ghost ps = text::pieces(rest@, '-');
            assert(parts@[0]@ == ps[0]);
            if !path(parts[0]) || text::byte_length(parts[0]) > MAX_TARGET_LEN {
                return None;
            }
            if parts.len() < 3 {
                return None;
            }
            assert(parts@[1]@ == ps[1]);
            (kind, parts[0].to_owned(), parts[1].to_owned(), join_from_third(&parts))
        },
        _ => (kind, empty, f.to_owned(), t.to_owned()),
    };
    if from.as_str().is_empty() || to.as_str().is_empty() {
        return None;
    }
    Some(WaylayRule { pkg: pkg.to_owned(), kind: k, target, from, to })
}

/// Reads the rule that a line holds, if it holds one.
pub fn parse_waylay_line(line: &str) -> (r: Option<WaylayRule>)
    requires
        !breaks_off(line@),
    ensures
        match r {
            Some(w) => waylay_rule(line@) == Some(w@),
            None => waylay_rule(line@) is None,
        },
{
    match split_named(line) {
        Some((pkg, v)) => {
            let (word, rest) = split_kind(v);
            match WaylayKind::parse(word) {
                Some(kind) => make_rule(pkg, kind, rest),
                None => None,
            }
        },
        None => None,
    }
}

/// Whether no line of a text breaks off.
pub fn waylay_text_complete(content: &str) -> (r: bool)
    ensures
        r == is_complete(content@),
{
    let lines = text::lines(content);
    let ghost all = text::line_seq(content@);
    let mut i: usize = 0;
    while i < lines.len()
        invariant
            i <= lines.len(),
            text::views(lines@) == all,
            all == text::line_seq(content@),
            forall|j: int| 0 <= j < i ==> !breaks_off(#[trigger] all[j]),
        decreases lines.len() - i,
    {
        let line = lines[i];
        assert(line@ == all[i as int]);
        if let Some((_, v)) = split_named(line) {
            let (word, rest) = split_kind(v);
            if let Some(kind) = WaylayKind::parse(word) {
                if kind == WaylayKind::Red && path(rest) && text::byte_length(rest)
                    <= MAX_TARGET_LEN && !text::has_char(rest, '-') {
                    assert(breaks_off(all[i as int]));
                    return false;
                }
            }
        }
        i += 1;
    }
    true
}

/// The rules that the lines hold, in their order.
pub open spec fn rules_of(lines: Seq<Seq<char>>) -> Seq<WaylayView>
    decreases lines.len(),
{
    if lines.len() == 0 {
        seq![]
    } else {
        let rest = rules_of(lines.drop_last());
        match waylay_rule(lines.last()) {
            Some(v) => rest.push(v),
            None => rest,
        }
    }
}

/// The rules that a text holds; no text holds none.
pub open spec fn rules_in(content: Option<&str>) -> Seq<WaylayView> {
    match content {
        Some(t) => rules_of(text::line_seq(t@)),
        None => seq![],
    }
}

/// Reads the rules that a text holds.
pub fn parse_waylay(content: Option<&str>) -> (r: Vec<WaylayRule>)
    requires
        content matches Some(t) ==> is_complete(t@),
    ensures
        waylay_views(r@) == rules_in(content),
{
    let mut out: Vec<WaylayRule> = Vec::new();
    assert(waylay_views(out@) =~= Seq::<WaylayView>::empty());
    if let Some(t) = content {
        let lines = text::lines(t);
        let ghost all = text::line_seq(t@);
        let mut i: usize = 0;
        assert(all.take(0) =~= Seq::<Seq<char>>::empty());
        while i < lines.len()
            invariant
                i <= lines.len(),
                text::views(lines@) == all,
                all == text::line_seq(t@),
                is_complete(t@),
                waylay_views(out@) == rules_of(all.take(i as int)),
            decreases lines.len() - i,
        {
            let line = lines[i];
            assert(line@ == all[i as int]);
            let ghost now = all.take(i + 1);
            assert(now.drop_last() =~= all.take(i as int));
            assert(now.last() == line@);
            let ghost mid = waylay_views(out@);
            if let Some(w) = parse_waylay_line(line) {
                out.push(w);
                assert(waylay_views(out@) =~= mid.push(w@));
            }
            i += 1;
        }
        assert(all.take(all.len() as int) =~= all);
    }
    out
}

impl Clone for WaylayRule {
    fn clone(&self) -> (r: WaylayRule)
        ensures
            r == *self,
    {
        WaylayRule {
            pkg: self.pkg.clone(),
            kind: self.kind,
            target: self.target.clone(),
            from: self.from.clone(),
            to: self.to.clone(),
        }
    }
}

/// The line that a rule is written as.
pub open spec fn rule_line(w: WaylayView) -> Seq<char> {
    let body = if w.kind == WaylayKind::Red {
        text::trimmed(w.target) + seq!['-'] + text::trimmed(w.from)
    } else {
        text::trimmed(w.from)
    };
    text::trimmed(w.pkg) + seq!['='] + tag_text(w.kind) + seq!['-'] + body + seq!['-']
        + text::trimmed(w.to)
}

/// The two comment lines at the top of the file.
pub open spec fn header() -> Seq<Seq<char>> {
    seq![
        "# waylay 新格式: <包名>=<kind>-<from>-<to>"@,
        "# kind: src=服务伪装 prop=属性伪装 red=重定向(内容替换); from/to 等长且不含 '-'"@,
    ]
}

/// The lines of the file for some rules.
pub open spec fn file_lines(ws: Seq<WaylayView>) -> Seq<Seq<char>> {
    header() + ws.map_values(|w: WaylayView| rule_line(w))
}

/// Writes the line of a rule behind what `out` holds.
fn push_rule_line(out: &mut String, r: &WaylayRule)
    ensures
        final(out)@ == old(out)@ + rule_line(r@),
{
    let ghost start = out@;
    out.append(text::trim(r.pkg.as_str()));
    out.push('=');
    out.append(r.kind.tag());
    out.push('-');
    if r.kind == WaylayKind::Red {
        out.append(text::trim(r.target.as_str()));
        out.push('-');
    }
    out.append(text::trim(r.from.as_str()));
    out.push('-');
    out.append(text::trim(r.to.as_str()));
    assert(out@ =~= start + rule_line(r@));
}

/// The text of the file for some rules.
pub fn waylay_file_text(rules: &Vec<WaylayRule>) -> (r: String)
    ensures
        r@ == text::terminated(file_lines(waylay_views(rules@))),
{
    let mut out = String::new();
    let ghost ws = waylay_views(rules@);
    let ghost all = file_lines(ws);
    out.append("# waylay 新格式: <包名>=<kind>-<from>-<to>");
    out.push('\n');
    out.append("# kind: src=服务伪装 prop=属性伪装 red=重定向(内容替换); from/to 等长且不含 '-'");
    out.push('\n');
    proof {
        let none = Seq::<Seq<char>>::empty();
        text::lemma_terminated_push(none, header()[0]);
        text::lemma_terminated_push(none.push(header()[0]), header()[1]);
        assert(none.push(header()[0]).push(header()[1]) =~= all.take(2));
        assert(out@ =~= text::terminated(all.take(2)));
    }
    let mut i: usize = 0;
    while i < rules.len()
        invariant
            i <= rules.len(),
            ws == waylay_views(rules@),
            all == file_lines(ws),
            out@ == text::terminated(all.take(2 + i as int)),
        decreases rules.len() - i,
    {
        push_rule_line(&mut out, &rules[i]);
        out.push('\n');
        proof {
            let l = rule_line(ws[i as int]);
            assert(all[2 + i as int] == l);
            text::lemma_terminated_push(all.take(2 + i as int), l);
            assert(all.take(2 + i as int).push(l) =~= all.take(3 + i as int));
            assert(out@ =~= text::terminated(all.take(3 + i as int)));
        }
        i += 1;
    }
    assert(all.take(all.len() as int) =~= all);
    out
}

/// Some rule replaces contents or paths of files.
pub open spec fn has_file_rules(ws: Seq<WaylayView>) -> bool {
    exists|i: int|
        0 <= i < ws.len() && ((#[trigger] ws[i]).kind == WaylayKind::Red || ws[i].kind
            == WaylayKind::RedPath)
}

/// Whether some rule replaces contents or paths of files.
pub fn any_file_rule(rules: &Vec<WaylayRule>) -> (r: bool)
    ensures
        r == has_file_rules(waylay_views(rules@)),
{
    let ghost ws = waylay_views(rules@);
    let mut i: usize = 0;
    while i < rules.len()
        invariant
            i <= rules.len(),
            ws == waylay_views(rules@),
            forall|j: int|
                0 <= j < i ==> (#[trigger] ws[j]).kind != WaylayKind::Red && ws[j].kind
                    != WaylayKind::RedPath,
        decreases rules.len() - i,
    {
        let k = rules[i].kind;
        assert(ws[i as int].kind == k);
        if k == WaylayKind::Red || k == WaylayKind::RedPath {
            return true;
        }
        i += 1;
    }
    false
}

/// The disguise rules in force, and what has changed since someone last asked.
pub struct WaylayStore {
    pub rules: Vec<WaylayRule>,
    /// The rules were loaded or saved.
    pub changed: bool,
    /// Rules on files were, or are, among them.
    pub vfc_changed: bool,
    /// The property disguises of the application in the foreground.
    pub prop_rules: Vec<(String, String)>,
    /// The security contexts of the disguised properties.
    pub prop_ctx: Vec<(String, String)>,
}

impl WaylayStore {
    /// A store without rules.
    pub fn new() -> (r: WaylayStore)
        ensures
            r.rules@.len() == 0,
            !r.changed,
            !r.vfc_changed,
            r.prop_rules@.len() == 0,
            r.prop_ctx@.len() == 0,
    {
        WaylayStore {
            rules: Vec::new(),
            changed: false,
            vfc_changed: false,
            prop_rules: Vec::new(),
            prop_ctx: Vec::new(),
        }
    }
}

/// The store after new rules have come.
pub open spec fn took_rules(a: WaylayStore, ws: Seq<WaylayView>, b: WaylayStore) -> bool {
    &&& waylay_views(b.rules@) == ws
    &&& b.changed
    &&& b.vfc_changed == (has_file_rules(waylay_views(a.rules@)) || has_file_rules(ws))
    &&& b.prop_rules == a.prop_rules
    &&& b.prop_ctx == a.prop_ctx
}

/// Reads the rules of a text and puts them in force.
pub fn load_waylay_rules(store: &mut WaylayStore, content: Option<&str>)
    requires
        content matches Some(t) ==> is_complete(t@),
    ensures
        took_rules(*old(store), rules_in(content), *final(store)),
{
    let out = parse_waylay(content);
    let vfc: bool = any_file_rule(&store.rules) || any_file_rule(&out);
    store.rules = out;
    store.vfc_changed = vfc;
    store.changed = true;
}

/// Puts rules in force once their file was written; otherwise nothing changes.
/// Whether the file was written.
pub fn save_waylay_rules(store: &mut WaylayStore, rules: Vec<WaylayRule>, written: bool) -> (r: bool)
    ensures
        r == written,
        written ==> took_rules(*old(store), waylay_views(rules@), *final(store)),
        !written ==> *final(store) == *old(store),
{
    if !written {
        return false;
    }
    let vfc: bool = any_file_rule(&store.rules) || any_file_rule(&rules);
    store.rules = rules;
    store.vfc_changed = vfc;
    store.changed = true;
    true
}

/// Whether the rules have changed; asking resets it.
pub fn take_waylay_changed(store: &mut WaylayStore) -> (r: bool)
    ensures
        r == old(store).changed,
        *final(store) == (WaylayStore { changed: false, ..*old(store) }),
{
    let r: bool = store.changed;
    store.changed = false;
    r
}

/// Whether rules on files have changed; asking resets it.
pub fn take_vfc_changed(store: &mut WaylayStore) -> (r: bool)
    ensures
        r == old(store).vfc_changed,
        *final(store) == (WaylayStore { vfc_changed: false, ..*old(store) }),
{
    let r: bool = store.vfc_changed;
    store.vfc_changed = false;
    r
}

/// The prefix and the context of a line of a property context file.
pub open spec fn context_entry(line: Seq<char>) -> Option<(Seq<char>, Seq<char>)> {
    let t = text::trimmed(line);
    let ws = text::words(t);
    if t.len() == 0 || t[0] == '#' || ws.len() < 2 {
        None
    } else {
        Some((ws[0], ws[1]))
    }
}

/// Of two matches, the one that counts: the later one only where its prefix is
/// longer.
pub open spec fn better(
    best: Option<(Seq<char>, Seq<char>)>,
    name: Seq<char>,
    line: Seq<char>,
) -> Option<(Seq<char>, Seq<char>)> {
    match context_entry(line) {
        Some((pre, ctx)) => if text::starts(name, pre) && (best matches Some(b) ==> text::byte_len(
            pre,
        ) > text::byte_len(b.0)) {
            Some((pre, ctx))
        } else {
            best
        },
        None => best,
    }
}

/// The best match among the first `n` lines, after `best` from earlier files.
pub open spec fn best_in(
    best: Option<(Seq<char>, Seq<char>)>,
    name: Seq<char>,
    lines: Seq<Seq<char>>,
    n: nat,
) -> Option<(Seq<char>, Seq<char>)>
    decreases n,
{
    if n == 0 {
        best
    } else {
        better(best_in(best, name, lines, (n - 1) as nat), name, lines[n - 1])
    }
}

/// The best match among the first `n` files.
pub open spec fn best_over(name: Seq<char>, files: Seq<Seq<char>>, n: nat) -> Option<
    (Seq<char>, Seq<char>),
>
    decreases n,
{
    if n == 0 {
        None
    } else {
        let lines = text::line_seq(files[n - 1]);
        best_in(best_over(name, files, (n - 1) as nat), name, lines, lines.len())
    }
}

/// The context of the property `name`: that of the longest prefix, and of the
/// first among equals.
pub open spec fn context_of(name: Seq<char>, files: Seq<Seq<char>>) -> Option<Seq<char>> {
    match best_over(name, files, files.len()) {
        Some((pre, ctx)) => Some(ctx),
        None => None,
    }
}

/// Looks a property up in one context file.
fn scan_contexts<'a>(best: Option<(&'a str, &'a str)>, name: &str, content: &'a str) -> (r: Option<
    (&'a str, &'a str),
>)
    ensures
        pair_view(r) == best_in(
            pair_view(best),
            name@,
            text::line_seq(content@),
            text::line_seq(content@).len(),
        ),
{
    let mut cur = best;
    let lines = text::lines(content);
    let ghost all = text::line_seq(content@);
    let mut i: usize = 0;
    while i < lines.len()
        invariant
            i <= lines.len(),
            text::views(lines@) == all,
            pair_view(cur) == best_in(pair_view(best), name@, all, i as nat),
        decreases lines.len() - i,
    {
        let line = lines[i];
        assert(line@ == all[i as int]);
        let t = text::trim(line);
        let ws = text::split_whitespace(t);
        let ghost vs = text::words(t@);
        if !t.is_empty() && t.get_char(0) != '#' && ws.len() >= 2 {
            assert(ws@[0]@ == vs[0]);
            assert(ws@[1]@ == vs[1]);
            let pre: &'a str = ws[0];
            let longer: bool = match cur {
                Some((b, _)) => text::byte_length(pre) > text::byte_length(b),
                None => true,
            };
            if text::starts_with(name, pre) && longer {
                cur = Some((pre, ws[1]));
            }
        }
        i += 1;
    }
    cur
}

/// The contents of a pair of texts.
pub open spec fn pair_view(p: Option<(&str, &str)>) -> Option<(Seq<char>, Seq<char>)> {
    match p {
        Some((a, b)) => Some((a@, b@)),
        None => None,
    }
}

/// The security context of a property, from the property context files.
pub fn prop_context_for(name: &str, files: &Vec<String>) -> (r: Option<String>)
    ensures
        match r {
            Some(c) => context_of(name@, text::owned(files@)) == Some(c@),
            None => context_of(name@, text::owned(files@)) is None,
        },
{
    let mut best: Option<(&str, &str)> = None;
    let ghost fs = text::owned(files@);
    let mut i: usize = 0;
    while i < files.len()
        invariant
            i <= files.len(),
            fs == text::owned(files@),
            pair_view(best) == best_over(name@, fs, i as nat),
        decreases files.len() - i,
    {
        assert(files@[i as int]@ == fs[i as int]);
        best = scan_contexts(best, name, files[i].as_str());
        i += 1;
    }
    match best {
        Some((_, c)) => Some(c.to_owned()),
        None => None,
    }
}

/// The properties that have a context, each with it, in the order of the rules.
pub open spec fn contexts_of(rules: Seq<(String, String)>, files: Seq<Seq<char>>) -> Seq<
    (Seq<char>, Seq<char>),
>
    decreases rules.len(),
{
    if rules.len() == 0 {
        seq![]
    } else {
        let rest = contexts_of(rules.drop_last(), files);
        match context_of(rules.last().0@, files) {
            Some(c) => rest.push((rules.last().0@, c)),
            None => rest,
        }
    }
}

/// The contents of a sequence of pairs of strings.
pub open spec fn pair_views(v: Seq<(String, String)>) -> Seq<(Seq<char>, Seq<char>)> {
    v.map_values(|p: (String, String)| (p.0@, p.1@))
}

/// Looks the contexts of the disguised properties up.
pub fn rebuild_prop_ctx_cache(store: &mut WaylayStore, files: &Vec<String>)
    ensures
        pair_views(final(store).prop_ctx@) == contexts_of(
            old(store).prop_rules@,
            text::owned(files@),
        ),
        final(store).rules == old(store).rules,
        final(store).changed == old(store).changed,
        final(store).vfc_changed == old(store).vfc_changed,
        final(store).prop_rules == old(store).prop_rules,
{
    let mut out: Vec<(String, String)> = Vec::new();
    let ghost fs = text::owned(files@);
    let ghost all = store.prop_rules@;
    let mut i: usize = 0;
    assert(all.take(0) =~= Seq::<(String, String)>::empty());
    assert(pair_views(out@) =~= contexts_of(all.take(0), fs));
    while i < store.prop_rules.len()
        invariant
            i <= store.prop_rules.len(),
            fs == text::owned(files@),
            all == store.prop_rules@,
            pair_views(out@) == contexts_of(all.take(i as int), fs),
        decreases store.prop_rules.len() - i,
    {
        let from = &store.prop_rules[i].0;
        let ghost now = all.take(i + 1);
        assert(now.drop_last() =~= all.take(i as int));
        assert(now.last() == all[i as int]);
        let ghost mid = pair_views(out@);
        if let Some(ctx) = prop_context_for(from.as_str(), files) {
            out.push((from.clone(), ctx));
            assert(pair_views(out@) =~= mid.push((from@, ctx@)));
        }
        i += 1;
    }
    assert(all.take(all.len() as int) =~= all);
    store.prop_ctx = out;
}

/// Puts the property disguises of an application in force.
pub fn set_prop_rules(store: &mut WaylayStore, rules: Vec<(String, String)>, files: &Vec<String>)
    ensures
        final(store).prop_rules == rules,
        pair_views(final(store).prop_ctx@) == contexts_of(rules@, text::owned(files@)),
        final(store).rules == old(store).rules,
        final(store).changed == old(store).changed,
        final(store).vfc_changed == old(store).vfc_changed,
{
    store.prop_rules = rules;
    rebuild_prop_ctx_cache(store, files);
}

/// The packages that have rules, `*` apart.
pub open spec fn ruled_pkgs(ws: Seq<WaylayView>) -> Set<Seq<char>> {
    Set::new(
        |p: Seq<char>|
            p != "*"@ && exists|i: int| 0 <= i < ws.len() && (#[trigger] ws[i]).pkg == p,
    )
}

/// The user number and the name of a package, from a line of the package list.
pub open spec fn listed_package(line: Seq<char>) -> Option<(int, Seq<char>)> {
    let ws = text::words(line);
    if ws.len() < 2 {
        None
    } else {
        match number::signed(ws[1], i32::MIN as int, i32::MAX as int) {
            Some(uid) => Some((uid, ws[0])),
            None => None,
        }
    }
}

/// The packages with rules by user number, after the first `n` lines.
pub open spec fn pkgs_by_uid(lines: Seq<Seq<char>>, n: nat, pkgs: Set<Seq<char>>) -> Map<
    i32,
    Seq<char>,
>
    decreases n,
{
    if n == 0 {
        Map::empty()
    } else {
        let m = pkgs_by_uid(lines, (n - 1) as nat, pkgs);
        match listed_package(lines[n - 1]) {
            Some((uid, p)) => if pkgs.contains(p) {
                m.insert(uid as i32, p)
            } else {
                m
            },
            None => m,
        }
    }
}

/// Reads a line of the package list.
pub fn parse_package_line<'a>(line: &'a str) -> (r: Option<(i32, &'a str)>)
    ensures
        match r {
            Some((uid, p)) => listed_package(line@) == Some((uid as int, p@)),
            None => listed_package(line@) is None,
        },
{
    let ws = text::split_whitespace(line);
    let ghost vs = text::words(line@);
    if ws.len() < 2 {
        return None;
    }
    assert(ws@[0]@ == vs[0]);
    assert(ws@[1]@ == vs[1]);
    match number::parse_i32(ws[1]) {
        Some(uid) => Some((uid, ws[0])),
        None => None,
    }
}

/// The packages that have rules, `*` apart.
fn ruled(rules: &Vec<WaylayRule>) -> (r: NameSet)
    ensures
        r.wf(),
        r@ == ruled_pkgs(waylay_views(rules@)),
{
    let mut pkgs = NameSet::new();
    let ghost ws = waylay_views(rules@);
    let mut i: usize = 0;
    assert(pkgs@ =~= ruled_pkgs(ws.take(0)));
    while i < rules.len()
        invariant
            i <= rules.len(),
            ws == waylay_views(rules@),
            pkgs.wf(),
            pkgs@ == ruled_pkgs(ws.take(i as int)),
        decreases rules.len() - i,
    {
        let p = rules[i].pkg.as_str();
        let ghost a = ws.take(i as int);
        let ghost b = ws.take(i + 1);
        if !text::same(p, "*") {
            pkgs.insert(p);
        }
        proof {
            assert(b =~= a.push(ws[i as int]));
            assert forall|x: Seq<char>| ruled_pkgs(b).contains(x) <==> (ruled_pkgs(a).contains(x)
                || (x == p@ && x != "*"@)) by {
                if ruled_pkgs(a).contains(x) {
                    let k = choose|k: int| 0 <= k < a.len() && (#[trigger] a[k]).pkg == x;
                    assert(b[k] == a[k]);
                }
                assert(b[i as int].pkg == p@);
            }
            assert(pkgs@ =~= ruled_pkgs(b));
        }
        i += 1;
    }
    assert(ws.take(ws.len() as int) =~= ws);
    pkgs
}

/// Finds, in the package list, the user numbers of the packages with rules.
pub fn rebuild_pkg_by_uid(rules: &Vec<WaylayRule>, list: Option<&str>) -> (r: HashMap<i32, String>)
    ensures
        names::maps_to(
            r@,
            match list {
                Some(t) => pkgs_by_uid(
                    text::line_seq(t@),
                    text::line_seq(t@).len(),
                    ruled_pkgs(waylay_views(rules@)),
                ),
                None => Map::empty(),
            },
        ),
{
    broadcast use vstd::std_specs::hash::group_hash_axioms;

    let pkgs = ruled(rules);
    let ghost want = ruled_pkgs(waylay_views(rules@));
    let mut m: HashMap<i32, String> = HashMap::new();
    assert(m@.dom() =~= Map::<i32, Seq<char>>::empty().dom());
    if let Some(t) = list {
        let lines = text::lines(t);
        let ghost all = text::line_seq(t@);
        let mut i: usize = 0;
        while i < lines.len()
            invariant
                i <= lines.len(),
                text::views(lines@) == all,
                pkgs@ == want,
                names::maps_to(m@, pkgs_by_uid(all, i as nat, want)),
            decreases lines.len() - i,
        {
            let line = lines[i];
            assert(line@ == all[i as int]);
            let ghost before = m@;
            if let Some((uid, p)) = parse_package_line(line) {
                if pkgs.contains(p) {
                    let name: String = p.to_owned();
                    m.insert(uid, name);
                    assert(m@ == before.insert(uid, name));
                }
            }
            assert(m@.dom() =~= pkgs_by_uid(all, i as nat + 1, want).dom());
            i += 1;
        }
    }
    m
}

/// Every listed application with rules is found by its user number, and nothing
/// else is: the name behind a number is one with rules.
pub proof fn ruled_packages_are_found(
    lines: Seq<Seq<char>>,
    n: nat,
    pkgs: Set<Seq<char>>,
    uid: i32,
)
    requires
        n <= lines.len(),
    ensures
        pkgs_by_uid(lines, n, pkgs).contains_key(uid) <==> exists|k: int|
            #![trigger listed_package(lines[k])]
            0 <= k < n && (listed_package(lines[k]) matches Some((u, p)) && u == uid
                && pkgs.contains(p)),
        pkgs_by_uid(lines, n, pkgs).contains_key(uid) ==> pkgs.contains(
            pkgs_by_uid(lines, n, pkgs)[uid],
        ),
    decreases n,
{
    if n > 0 {
        ruled_packages_are_found(lines, (n - 1) as nat, pkgs, uid);
    }
}

/// Trimmed, not empty, and without a line feed.
pub open spec fn is_word(s: Seq<char>) -> bool {
    s.len() > 0 && text::trimmed(s) == s && !s.contains('\n')
}

/// A rule that its file can hold: words without the characters that part them
/// from their neighbours, and absolute paths where paths are asked for.
pub open spec fn is_writable(w: WaylayView) -> bool {
    &&& is_word(w.pkg) && !w.pkg.contains('=') && !grammar::is_comment_mark(w.pkg)
    &&& is_word(w.from) && !w.from.contains('-')
    &&& is_word(w.to)
    &&& match w.kind {
        WaylayKind::Red => is_word(w.target) && is_target(w.target) && !w.target.contains('-'),
        WaylayKind::RedPath => w.target.len() == 0 && is_path(w.from) && is_path(w.to),
        _ => w.target.len() == 0,
    }
}

proof fn lemma_named_value(pkg: Seq<char>, v: Seq<char>)
    requires
        is_word(pkg),
        !pkg.contains('='),
        !grammar::is_comment_mark(pkg),
        is_word(v),
    ensures
        named_value(pkg + seq!['='] + v) == Some((pkg, v)),
{
    let l = pkg + seq!['='] + v;
    text::lemma_trimmed_ends(pkg);
    text::lemma_trimmed_ends(v);
    assert(l[0] == pkg[0]);
    assert(l.last() == v.last());
    text::lemma_trimmed_id(l);
    if pkg.len() > 1 {
        assert(l[1] == pkg[1]);
    } else {
        assert(l[1] == '=');
    }
    assert(!grammar::is_comment_mark(l));
    assert forall|j: int| 0 <= j < pkg.len() implies l[j] != '=' by {
        assert(l[j] == pkg[j]);
    }
    assert(l[pkg.len() as int] == '=');
    text::lemma_first_at(l, '=', pkg.len() as int);
    assert(l.take(pkg.len() as int) =~= pkg);
    assert(l.skip(pkg.len() as int + 1) =~= v);
}

proof fn lemma_dash(a: Seq<char>, b: Seq<char>)
    requires
        !a.contains('-'),
    ensures
        text::first(a + seq!['-'] + b, '-') == a.len(),
        (a + seq!['-'] + b).take(a.len() as int) == a,
        (a + seq!['-'] + b).skip(a.len() as int + 1) == b,
        dash_pair(a + seq!['-'] + b) == (a, b),
{
    let s = a + seq!['-'] + b;
    assert forall|j: int| 0 <= j < a.len() implies s[j] != '-' by {
        assert(s[j] == a[j]);
    }
    assert(s[a.len() as int] == '-');
    text::lemma_first_at(s, '-', a.len() as int);
    assert(s.take(a.len() as int) =~= a);
    assert(s.skip(a.len() as int + 1) =~= b);
}

/// The value of a writable rule, behind its `=`.
spec fn value_text(w: WaylayView) -> Seq<char> {
    tag_text(w.kind) + seq!['-'] + rest_text(w)
}

/// What follows the word for the kind.
spec fn rest_text(w: WaylayView) -> Seq<char> {
    if w.kind == WaylayKind::Red {
        w.target + seq!['-'] + (w.from + seq!['-'] + w.to)
    } else {
        w.from + seq!['-'] + w.to
    }
}

proof fn lemma_value_text(w: WaylayView)
    requires
        is_writable(w),
    ensures
        rule_line(w) == w.pkg + seq!['='] + value_text(w),
        is_word(value_text(w)),
{
    lemma_tags();
    let v = value_text(w);
    let tag = tag_text(w.kind);
    assert(rule_line(w) =~= w.pkg + seq!['='] + v);
    text::lemma_trimmed_ends(w.to);
    assert(v[0] == tag[0]);
    assert(v.last() == w.to.last());
    text::lemma_trimmed_id(v);
    assert forall|i: int| 0 <= i < v.len() implies v[i] != '\n' by {
        let r = rest_text(w);
        if i < tag.len() {
            assert(v[i] == tag[i]);
        } else if i > tag.len() {
            let k = i - tag.len() - 1;
            assert(v[i] == r[k]);
            if w.kind == WaylayKind::Red {
                if k < w.target.len() {
                    assert(r[k] == w.target[k]);
                } else if k > w.target.len() {
                    let m = k - w.target.len() - 1;
                    if m < w.from.len() {
                        assert(r[k] == w.from[m]);
                    } else if m > w.from.len() {
                        assert(r[k] == w.to[m - w.from.len() - 1]);
                    }
                }
            } else {
                if k < w.from.len() {
                    assert(r[k] == w.from[k]);
                } else if k > w.from.len() {
                    assert(r[k] == w.to[k - w.from.len() - 1]);
                }
            }
        }
    }
}

proof fn lemma_kind_and_rest(w: WaylayView)
    requires
        is_writable(w),
    ensures
        kind_and_rest(value_text(w)) == (tag_text(w.kind), rest_text(w)),
{
    lemma_tags();
    let v = value_text(w);
    let tag = tag_text(w.kind);
    let r = rest_text(w);
    if w.kind == WaylayKind::RedPath {
        assert(v.take(9) =~= "red-path-"@);
        assert(v.skip(9) =~= r);
    } else {
        assert(!tag.contains('-'));
        lemma_dash(tag, r);
        assert(v =~= tag + seq!['-'] + r);
        assert(v[0] == tag[0]);
        if text::starts(v, "red-path-"@) {
            assert(v.take(9)[0] == 'r');
            assert(v.take(9)[4] == 'p');
            assert(w.kind == WaylayKind::Red);
            assert(v[4] == r[0]);
            assert(r[0] == w.target[0]);
        }
    }
}

/// The line of a writable rule is read as that rule.
pub proof fn rule_line_reads_back(w: WaylayView)
    requires
        is_writable(w),
    ensures
        waylay_rule(rule_line(w)) == Some(w),
        !breaks_off(rule_line(w)),
        text::is_plain_line(rule_line(w)),
{
    lemma_value_text(w);
    lemma_named_value(w.pkg, value_text(w));
    lemma_kind_and_rest(w);
    tag_reads_back(w.kind);
    let r = rest_text(w);
    let none = Seq::<char>::empty();
    match w.kind {
        WaylayKind::Red => {
            text::lemma_pieces_step(w.target, '-', w.from + seq!['-'] + w.to);
            text::lemma_pieces_step(w.from, '-', w.to);
            let ps = text::pieces(r, '-');
            let tail = text::pieces(w.to, '-');
            assert(ps =~= seq![w.target] + (seq![w.from] + tail));
            text::join_undoes_split(w.to, '-');
            assert(ps.skip(2) =~= tail);
            assert(ps[0] == w.target);
            assert(ps[1] == w.from);
            assert(r[w.target.len() as int] == '-');
            assert(r.contains('-'));
        },
        _ => {
            lemma_dash(w.from, w.to);
            assert(w.target =~= none);
        },
    }
    let l = rule_line(w);
    text::lemma_trimmed_ends(value_text(w));
    assert(l.last() == value_text(w).last());
    assert forall|i: int| 0 <= i < l.len() implies l[i] != '\n' by {
        if i < w.pkg.len() {
            assert(l[i] == w.pkg[i]);
        } else if i > w.pkg.len() {
            assert(l[i] == value_text(w)[i - w.pkg.len() - 1]);
        }
    }
}

proof fn lemma_header()
    ensures
        forall|i: int|
            0 <= i < header().len() ==> text::is_plain_line(#[trigger] header()[i]) && waylay_rule(
                header()[i],
            ) is None && !breaks_off(header()[i]),
{
    let a = header()[0];
    let b = header()[1];
    reveal_strlit("# waylay 新格式: <包名>=<kind>-<from>-<to>");
    reveal_strlit(
        "# kind: src=服务伪装 prop=属性伪装 red=重定向(内容替换); from/to 等长且不含 '-'",
    );
    assert(a.last() == '>');
    assert(b.last() == '\'');
    text::lemma_trimmed_id(a);
    text::lemma_trimmed_id(b);
    assert(a[0] == '#');
    assert(b[0] == '#');
    assert(!a.contains('\n'));
    assert(!b.contains('\n'));
}

proof fn lemma_rules_of_concat(a: Seq<Seq<char>>, ws: Seq<WaylayView>)
    requires
        rules_of(a) == Seq::<WaylayView>::empty(),
        forall|i: int| 0 <= i < ws.len() ==> is_writable(#[trigger] ws[i]),
    ensures
        rules_of(a + ws.map_values(|w: WaylayView| rule_line(w))) == ws,
    decreases ws.len(),
{
    let ls = ws.map_values(|w: WaylayView| rule_line(w));
    if ws.len() == 0 {
        assert(a + ls =~= a);
        assert(ws =~= Seq::<WaylayView>::empty());
    } else {
        let init = ws.drop_last();
        assert forall|i: int| 0 <= i < init.len() implies is_writable(#[trigger] init[i]) by {
            assert(init[i] == ws[i]);
        }
        lemma_rules_of_concat(a, init);
        let li = init.map_values(|w: WaylayView| rule_line(w));
        assert((a + ls).drop_last() =~= a + li);
        assert((a + ls).last() == rule_line(ws.last()));
        assert(is_writable(ws[ws.len() - 1]));
        rule_line_reads_back(ws.last());
        assert(init.push(ws.last()) =~= ws);
    }
}

/// What is saved of writable rules is a complete text, and reading it gives
/// the rules back.
pub proof fn saved_rules_read_back(ws: Seq<WaylayView>)
    requires
        forall|i: int| 0 <= i < ws.len() ==> is_writable(#[trigger] ws[i]),
    ensures
        is_complete(text::terminated(file_lines(ws))),
        rules_of(text::line_seq(text::terminated(file_lines(ws)))) == ws,
{
    let all = file_lines(ws);
    lemma_header();
    assert forall|i: int| 0 <= i < all.len() implies text::is_plain_line(#[trigger] all[i])
        && !breaks_off(all[i]) by {
        if i < 2 {
            assert(all[i] == header()[i]);
        } else {
            assert(is_writable(ws[i - 2]));
            rule_line_reads_back(ws[i - 2]);
            assert(all[i] == rule_line(ws[i - 2]));
        }
    }
    text::written_lines_read_back(all);
    let h = header();
    assert(h.drop_last().drop_last() =~= Seq::<Seq<char>>::empty());
    assert(h.drop_last().last() == h[0]);
    assert(h.last() == h[1]);
    assert(rules_of(h.drop_last().drop_last()) =~= Seq::<WaylayView>::empty());
    assert(rules_of(h.drop_last()) =~= Seq::<WaylayView>::empty());
    assert(rules_of(h) =~= Seq::<WaylayView>::empty());
    lemma_rules_of_concat(h, ws);
}

/// The words of the file name their kinds.
pub proof fn words_name_their_kinds()
    ensures
        kind_named("src"@) == Some(WaylayKind::Src),
        kind_named("prop"@) == Some(WaylayKind::Prop),
        kind_named("red"@) == Some(WaylayKind::Red),
        kind_named("red-path"@) == Some(WaylayKind::RedPath),
        tag_text(WaylayKind::Src) == "src"@,
        tag_text(WaylayKind::Prop) == "prop"@,
        tag_text(WaylayKind::Red) == "red"@,
        tag_text(WaylayKind::RedPath) == "red-path"@,
{
    tag_reads_back(WaylayKind::Src);
    tag_reads_back(WaylayKind::Prop);
    tag_reads_back(WaylayKind::Red);
    tag_reads_back(WaylayKind::RedPath);
}

/// `pkg=src-from-to` disguises the service `from` as `to`, and `pkg=prop-from-to`
/// a property; `pkg=red-file-from-to` replaces contents of a file, and
/// `pkg=red-path-from-to` a path.
pub proof fn lines_are_read_as_rules(
    pkg: Seq<char>,
    target: Seq<char>,
    from: Seq<char>,
    to: Seq<char>,
)
    requires
        is_word(pkg),
        !pkg.contains('='),
        !grammar::is_comment_mark(pkg),
        is_word(from),
        !from.contains('-'),
        is_word(to),
    ensures
        waylay_rule(pkg + "=src-"@ + from + seq!['-'] + to) == Some(
            (WaylayView { pkg, kind: WaylayKind::Src, target: seq![], from, to }),
        ),
        waylay_rule(pkg + "=prop-"@ + from + seq!['-'] + to) == Some(
            (WaylayView { pkg, kind: WaylayKind::Prop, target: seq![], from, to }),
        ),
        is_word(target) && target[0] == '/' && text::byte_len(target) <= 127 && !target.contains(
            '-',
        ) ==> waylay_rule(pkg + "=red-"@ + target + seq!['-'] + from + seq!['-'] + to) == Some(
            (WaylayView { pkg, kind: WaylayKind::Red, target, from, to }),
        ),
        from[0] == '/' && to[0] == '/' ==> waylay_rule(
            pkg + "=red-path-"@ + from + seq!['-'] + to,
        ) == Some((WaylayView { pkg, kind: WaylayKind::RedPath, target: seq![], from, to })),
{
    words_name_their_kinds();
    reveal_strlit("src");
    reveal_strlit("prop");
    reveal_strlit("red");
    reveal_strlit("red-path");
    reveal_strlit("=src-");
    reveal_strlit("=prop-");
    reveal_strlit("=red-");
    reveal_strlit("=red-path-");
    let a = WaylayView { pkg, kind: WaylayKind::Src, target: seq![], from, to };
    let b = WaylayView { pkg, kind: WaylayKind::Prop, target: seq![], from, to };
    let c = WaylayView { pkg, kind: WaylayKind::Red, target, from, to };
    let d = WaylayView { pkg, kind: WaylayKind::RedPath, target: seq![], from, to };
    rule_line_reads_back(a);
    rule_line_reads_back(b);
    assert("=src-"@ =~= seq!['='] + "src"@ + seq!['-']);
    assert("=prop-"@ =~= seq!['='] + "prop"@ + seq!['-']);
    assert("=red-"@ =~= seq!['='] + "red"@ + seq!['-']);
    assert("=red-path-"@ =~= seq!['='] + "red-path"@ + seq!['-']);
    assert(rule_line(a) =~= pkg + "=src-"@ + from + seq!['-'] + to);
    assert(rule_line(b) =~= pkg + "=prop-"@ + from + seq!['-'] + to);
    if is_word(target) && target[0] == '/' && text::byte_len(target) <= 127 && !target.contains(
        '-',
    ) {
        rule_line_reads_back(c);
        assert(rule_line(c) =~= pkg + "=red-"@ + target + seq!['-'] + from + seq!['-'] + to);
    }
    if from[0] == '/' && to[0] == '/' {
        rule_line_reads_back(d);
        assert(rule_line(d) =~= pkg + "=red-path-"@ + from + seq!['-'] + to);
    }
}

/// A file has the rules of its lines, in their order; lines that hold none are
/// passed over.
pub proof fn files_have_the_rules_of_their_lines(a: Seq<Seq<char>>, line: Seq<char>)
    ensures
        waylay_rule(line) matches Some(w) ==> rules_of(a.push(line)) == rules_of(a).push(w),
        waylay_rule(line) is None ==> rules_of(a.push(line)) == rules_of(a),
        rules_of(seq![]) == Seq::<WaylayView>::empty(),
        grammar::is_blank_or_comment(line) ==> waylay_rule(line) is None,
{
    assert(a.push(line).drop_last() =~= a);
}

/// A property has the context of the longest prefix of its name that a context
/// file lists; it has none if and only if no prefix of it is listed.
pub proof fn longest_prefixes_decide(
    best: Option<(Seq<char>, Seq<char>)>,
    name: Seq<char>,
    lines: Seq<Seq<char>>,
    n: nat,
    k: int,
)
    requires
        0 <= k < n <= lines.len(),
        best matches Some(b) ==> text::starts(name, b.0),
    ensures
        match best_in(best, name, lines, n) {
            Some((pre, ctx)) => {
                &&& text::starts(name, pre)
                &&& best == Some((pre, ctx)) || exists|j: int|
                    0 <= j < n && context_entry(#[trigger] lines[j]) == Some((pre, ctx))
                &&& (context_entry(lines[k]) matches Some((p, c)) ==> (text::starts(name, p)
                    ==> text::byte_len(p) <= text::byte_len(pre)))
            },
            None => best is None && !(context_entry(lines[k]) matches Some((p, c)) && text::starts(
                name,
                p,
            )),
        },
    decreases n,
{
    lemma_best(best, name, lines, n);
    lemma_best_over_one(best, name, lines, n, k);
}

proof fn lemma_best(
    best: Option<(Seq<char>, Seq<char>)>,
    name: Seq<char>,
    lines: Seq<Seq<char>>,
    n: nat,
)
    requires
        n <= lines.len(),
        best matches Some(b) ==> text::starts(name, b.0),
    ensures
        best_in(best, name, lines, n) matches Some((pre, ctx)) ==> text::starts(name, pre) && (best
            == Some((pre, ctx)) || exists|j: int|
            0 <= j < n && context_entry(#[trigger] lines[j]) == Some((pre, ctx))),
        best_in(best, name, lines, n) is None ==> best is None,
    decreases n,
{
    if n > 0 {
        let m = (n - 1) as nat;
        lemma_best(best, name, lines, m);
        let a = best_in(best, name, lines, m);
        let b = best_in(best, name, lines, n);
        if b == a {
            if let Some((pre, ctx)) = a {
                if best != Some((pre, ctx)) {
                    let j = choose|j: int|
                        0 <= j < m && context_entry(#[trigger] lines[j]) == Some((pre, ctx));
                    assert(context_entry(lines[j]) == Some((pre, ctx)));
                }
            }
        } else {
            assert(context_entry(lines[n - 1]) == b);
        }
    }
}

proof fn lemma_best_over_one(
    best: Option<(Seq<char>, Seq<char>)>,
    name: Seq<char>,
    lines: Seq<Seq<char>>,
    n: nat,
    k: int,
)
    requires
        0 <= k < n <= lines.len(),
    ensures
        context_entry(lines[k]) matches Some((p, c)) ==> (text::starts(name, p) ==> (best_in(
            best,
            name,
            lines,
            n,
        ) matches Some((pre, ctx)) && text::byte_len(p) <= text::byte_len(pre))),
    decreases n,
{
    if k < n - 1 {
        lemma_best_over_one(best, name, lines, (n - 1) as nat, k);
    }
}

/// A line of a context file lists its first word with its second as the context;
/// comments list nothing.
pub proof fn context_lines_are_read(pre: Seq<char>, ctx: Seq<char>)
    requires
        http::is_visible(pre),
        http::is_visible(ctx),
        pre[0] != '#',
    ensures
        context_entry(pre + seq![' '] + ctx) == Some((pre, ctx)),
        context_entry(seq!['#'] + pre + seq![' '] + ctx) is None,
{
    let s = pre + seq![' '] + ctx;
    assert(s[0] == pre[0]);
    assert(s.last() == ctx[ctx.len() - 1]);
    text::lemma_trimmed_id(s);
    http::lemma_two_words(pre, ctx);
    let c = seq!['#'] + pre + seq![' '] + ctx;
    assert(c[0] == '#');
    assert(c.last() == ctx[ctx.len() - 1]);
    text::lemma_trimmed_id(c);
}

/// Rules that come change the rules in force, and are told so; those on files
/// are told where there were or are some.
pub proof fn new_rules_are_told(a: WaylayStore, ws: Seq<WaylayView>, b: WaylayStore, i: int)
    requires
        took_rules(a, ws, b),
    ensures
        b.changed,
        waylay_views(b.rules@) == ws,
        0 <= i < ws.len() && (ws[i].kind == WaylayKind::Red || ws[i].kind == WaylayKind::RedPath)
            ==> b.vfc_changed,
        0 <= i < a.rules@.len() && (a.rules@[i].kind == WaylayKind::Red || a.rules@[i].kind
            == WaylayKind::RedPath) ==> b.vfc_changed,
        a.rules@.len() == 0 && ws.len() == 0 ==> !b.vfc_changed,
{
    if 0 <= i < ws.len() && (ws[i].kind == WaylayKind::Red || ws[i].kind == WaylayKind::RedPath) {
        assert(has_file_rules(ws));
    }
    if 0 <= i < a.rules@.len() {
        assert(waylay_views(a.rules@)[i].kind == a.rules@[i].kind);
    }
}

} // verus!
